# db_sync

Compares the schemas of the same PostgreSQL database in several environments and shows,
on two HTML pages, where they disagree: an overview of all tables, and a page per table
with its columns and indexes.

- `src/` is the verified library:
  - `text`: the order of keys (the order of `str`), prefixes, decimal numbers;
  - `str_map`: `StrMap`, a map with string keys kept in key order;
  - `dto`, `repo`: the rows the schema queries return and what is made of them;
  - `schema`: merging what each environment has, table by table and column by column;
  - `index_action`, `table_action`: where environments disagree, and the two pages;
  - `settings`: the settings model.
- `app/` is the service around it: settings, database queries, the HTTP server.
- `tests/` runs the library on concrete values.
