# demo_app

The content and decision logic of the Runique demo site, written in Verus
and proved against its contracts.

- `src/` is the verified library:
  - `text` and `numbers`: the `str` operations the rest builds on (trimming,
    lines, searching, splitting, joining, integer parsing), each stated as a
    spec function over `Seq<char>`;
  - `names`: the order of directory entries by the bytes of their names;
  - `docs`: the reading of the documentation's markdown pages (anchors,
    order, title, lead, blocks) and the slugs and URLs of sections and pages;
  - `courses`: chapter slugs, chapters and blocks of the courses;
  - `assistant`: the course context, the prompt, and the state machine that
    reads the exercise model's replies;
  - `cards`: the changelog, known-issues and roadmap cards, the changelog's
    paging, and the grouping of form fields;
  - `admin`: list-filter values, SQL quoting, record ids, routes and the
    dashboard template switch;
  - `handlers`: what each page answers, given the request and the results of
    its lookups;
  - `schema`: the all-fields test model;
  - `psql`: the error lines of a `psql` report.
  The public `law_*` proof functions state what holds across calls.
- `app/` is the web application around it: the Runique handlers, the
  database seeding from the files on disk, the call to the chat model, and
  the serde forms of the library's types.
- `tests/` runs the library on concrete values.
