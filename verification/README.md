# xprec

Compensated (double-double) arithmetic: a number is held as the unevaluated
sum `hi + lo` of two binary64 numbers, which roughly doubles the precision
of binary64.

## Layout

- `src/` is the verified library.  It holds both parts of a number as their
  IEEE 754 binary64 encodings (`Df64 = Compensated<u64, u64>`) and carries
  out the binary64 operations itself, on the encodings:
  - `ieee`, `rounding`: the fields of an encoding, the value of a finite
    number in units of 2^-1074, rounding to nearest (ties to even), the
    encoding of a rounded value, and the order of numbers;
  - `ops`: the binary64 operations (sum, product, fused multiply-add,
    quotient, square root, the roundings to integers, `ldexp`), each
    specified as the correctly rounded exact result;
  - `arith`: double-double arithmetic (Joldes et al., ACM Trans. Math.
    Softw. 44, 2018), each operation specified by the sequence of binary64
    operations that it performs;
  - `checks`, `funcs`, `round`, `convert`, `roots`: classification and
    closeness, sign and ordering, rounding to integers, conversions from and
    to the primitive integers, `hypot` and `1/sqrt`;
  - `exp`, `circular`, `hyperbolic`: the elementary functions; the
    logarithms and the inverse functions take the binary64 approximation
    that they refine as an argument (the inverse hyperbolic functions take
    the binary64 logarithm of their argument's leading part, and compose
    the refinement themselves);
  - `gauss`: Gauss-Legendre quadrature rules;
  - `laws`: properties that relate these functions, among them the
    exactness of the error-free transformations;
  - `accuracy`: how far the double-double operations (sums, products,
    quotients, reciprocals, square roots) are from the exact result, as
    bounds in multiples of `u^2 = 2^-106`; the identities `x * 1`, `x + 0`
    and `x + (-x)`, which hold exactly; that `add_qq` does not depend on
    the order of its operands; and that a square is not negative and is
    normalized;
  - `round` also proves that rounding to an integer gives exactly the
    integer rounding of `hi + lo`, with integer, normalized parts, and that
    `ceil(x)` is `-floor(-x)` part by part.
- `app/` holds the `f64` type that users compute with, the operator and
  `approx`/`num-traits` impls, the constants, and the binary64 seeds of the
  logarithms and inverse functions, which std computes.  Everything else it
  hands to the library.
- `tests/` exercises the library; the elementary functions are checked
  against a 128-bit reference computed in the tests.
