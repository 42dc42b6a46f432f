# wenku8

The logic of a Wenku8 light-novel source for the Aidoku reader, written in
Verus and proved against its contracts.

- `src/` is the verified library. It reads what the site's pages show
  (handed to it as plain values), builds the site's addresses, decides what a
  search asks for, cleans titles, descriptions and chapter text, and reads the
  answers of the search relay.
  - `text`, `number`, `encode`: the string, number and encoding primitives
    that everything else is stated over.
  - `util`, `net`: keys, addresses, cookies and the classification of answers.
  - `chapters`, `details`, `listing`, `home`, `filters`, `mewx`: one module per
    kind of page.
  - `source`: search plans, chapter pages, links and login, and the laws that
    tie the address builders to the key readers.
- `app/` is the glue that the Aidoku runtime calls: it fetches pages, reads
  the parsed documents into the library's plain values and turns the
  library's results and errors into the runtime's types.
- `tests/` runs the library on concrete pages and texts.
