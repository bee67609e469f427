# pyco8

The verified core of Pyco8, a small fantasy console: a window showing a
128x128 screen of "fat pixels", sprites drawn from digit sheets, a Python
drawing API, and script8, a tiny scripting language.

- `src/` is the library, verified with Verus:
  - `script8::lexer` splits a line into tokens; `script8::parser` converts an
    infix expression to postfix with the shunting-yard algorithm;
    `script8::precedence` states, without the algorithm, which postfix form
    precedence gives an expression, and proves the two agree;
    `script8::context` holds nested variable scopes.
  - `engine::sprites` reads sprite sheets and lists the fat pixels of a
    sprite; `engine::shader` keeps a shader program's bookkeeping;
    `engine::window` holds the main loop's decisions and the viewport maths.
  - `pyapi` is the request queue and sprite data shared with Python.
  - `text` splits text into words and lines as `str::split_whitespace` and
    `str::lines` do.
- `app/` is the program around it: the glutin window and event loop, the
  OpenGL calls, file reading, the Python bindings, and what works on floating
  point numbers.
- `tests/` runs the library on concrete inputs.
