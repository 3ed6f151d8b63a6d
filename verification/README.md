# yara_x_re

A verified compiler from regular expressions to code for a Pike virtual machine.

`Compiler::compile` takes an expression of `regex_syntax` and returns two sequences of
instructions, one that matches the expression from left to right and one that matches it from
right to left, together with the atoms that the expression is searched by. An atom is a short
literal. Where it is found, the code is run in both directions from the place that goes with the
atom. `Compiler::try_compile` first tells whether there is code for the expression at all.

## Layout

| module | what it holds |
| --- | --- |
| `compiler` | the compiler: the walk over an expression, and what it emits on the way |
| `instr` | instructions and sequences of them |
| `atoms`, `extract` | atoms, how good they are, and how literals become atoms |
| `class`, `expr` | character classes and expressions |
| `size` | the size of the code of an expression, before there is any |
| `regex` | the calls into `regex_syntax`, with what is taken on trust of each |
| `code`, `select` | what the code and the atoms of an expression are |
| `state`, `layout`, `walk` | what each step of the walk does, and that a walk gives that code and those atoms |
| `language`, `machine` | what an expression matches, and what the machine accepts |
| `correct` | the code accepts the matches of the expression, in both directions, and nothing else (without the class of all Unicode characters) |
| `bytes` | what the code accepts if there is the class of all Unicode characters: the matches of the expression with the class of all bytes in its place |
| `choice` | the atoms are short and placed in the code |
| `present` | if there are atoms, one of them occurs in every match |
| `cover`, `cut` | a search for the atoms, if there are any, finds the matches, and nothing else (without the class of all Unicode characters) |

## What is not matched

There is no code for empty expressions, look-arounds, repetitions other than `e*` and `e+`,
alternations of more than 255 expressions, classes of characters outside ASCII, and expressions
whose code would need an offset that does not fit in 16 bits. The class of all Unicode characters
is read as a single byte.

## Atoms

If atoms are chosen, one of them occurs in every match. An expression may have none: nothing that a
match need not contain is chosen, so that `.*` has no atoms, nor has `abc|.*`, whose second
alternative has none.
