# calculator

A big-number calculator: signed integers of any length in a radix up to 255,
with addition, subtraction, multiplication, division with remainder, and
reading and writing in binary (`0B`), octal (`0O` when read, `00` when
written), decimal and hexadecimal (`0X`) notation. The operations are offered as tools of an MCP server.

## Layout

- `src/` is the library, verified with Verus. Every executable function has a
  contract over a mathematical model of its values (`BignumView`: digits,
  radix, sign; `magnitude()` and `value()` as integers).
  - `digits`, `normalize`: the value of a digit sequence, and the carrying
    and borrowing that turns signed digits of any size into the number of
    their value.
  - `bignum`: the number type, its constructors and accessors.
  - `arithmetic`, `division`, `order`: the operators `+ - * /` and the
    comparisons that division uses. Each gives the exact result: the sum,
    difference and product of the values, and the quotient rounded toward
    zero with a remainder below the divisor.
  - `text`: parsing and printing.
  - `bit_reverser`: the bit-reversal permutation of the transform.
  - `calculator`: the tools' operations on numbers given as text.
  - `laws`: what holds across the operations (equality is equality of
    values, addition and multiplication commute, subtraction is
    antisymmetric, flipping the sign twice gives the number back, printing
    then parsing gives the number back, the division identity).
- `app/` is the program around it: the MCP server over stdio or HTTP, and
  the floating-point Fourier transform.
- `tests/` runs the library on concrete values.
