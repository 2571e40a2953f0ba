# ilk

Ilk is a plain-text logical markup language: a document is text in which
markers assert Prolog-like facts at points of the text, over regions of it
and over indented blocks. Compiling a document extracts its text and a
database of facts about it.

This crate is the verified core of the Ilk tools, written in Verus:

- `src/intern.rs`, `src/term.rs`: interning tables, and the table of atoms
  and compounds that terms refer to;
- `src/parser/`: identifiers and operators, the scanner and parser of
  facts (events in postfix order), and the parser of documents (text,
  region starts and ends, and the facts of each marker);
- `src/compiler.rs`: the compiler from a document to events: text, regions
  with their offsets in the extracted text, their nesting (`Parent` and
  `Ancestor`), assertions, and each distinct term once;
- `src/meta.rs`: operator definition files (`op(Precedence, Type, Name).`);
- `src/writer/souffle.rs`: the rows of the Soufflé fact files.

`app/` holds the `ilkc` command line: reading files, writing the fact files,
and reading single-precision numbers, which stays out of the verified code.
