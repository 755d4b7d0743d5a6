# math_lib

A small linear-algebra and physics toolkit exposed to Python.

- `src/` is the verified library. Matrices are generic in their element
  type; the arithmetic on entries is handed in as closures, so the library
  proves the structure of every operation (shapes, positions, pivoting,
  substitution order, refusals) and relates each result to the closures'
  results. It also holds the choice of formula for Newton's, Ohm's and
  Snell's laws and the text layouts.
- `app/` is the Python module: the classes and functions that Python sees,
  the floating-point arithmetic handed to the library, and the vectors and
  complex numbers, which are floating-point arithmetic throughout.
- `tests/` runs the library on concrete values.
