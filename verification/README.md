# jdr_rolls

Luck ratings for tabletop role-playing games: the probability distribution of a dice
roll such as `4d6kh3r1<2min2`, and a spline through a character's past results.

- `src/` is the verified library (Verus): the dice notation (`maths::dice::notation`),
  binomial counts (`maths::dice::get_combinations`, `maths::dice::binomial`), the layout
  of distributions (`maths::dice::support`), the rules of rerolls (`maths::dice::reroll`)
  and of kept dice (`maths::dice::keep`), the structure of the spline equation systems
  (`maths::splines`, `splines`) and the order of the database migrations (`db`).
- `app/` is the program around it: command line, database, window, and the floating-point
  arithmetic of probabilities and spline coefficients.
- `tests/` runs the library on concrete values.
