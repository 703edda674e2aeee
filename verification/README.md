# http1

Building blocks of an HTTP/1.1 web framework, written in Verus: each function states what it
computes in `requires`/`ensures`, and Verus proves it.

## Layout

- `src/` — the verified library.
  - `uri/` — URIs: scheme, authority, path, query and fragment; percent-encoding.
  - `headers.rs`, `header/` — header lists and typed headers (`Authorization`, `Basic`
    credentials, `Host`, `Referer`, `If-Match`, `User-Agent`), the client address of a request.
  - `app/` — methods, routes and their matching, scopes of handlers, the application
    dispatch, and the choice of routes to pre-render.
  - `json/` — insertion-ordered maps, reading JSON, writing it compactly or pretty.
  - `forms/` — url-encoded forms, a buffered stream reader and `multipart/form-data` parsing.
  - `cookies.rs` — reading `Cookie` headers, writing `Set-Cookie` values, a cookie jar.
  - `html/` — html elements, their rendering, and the element stack of the builder.
  - `server.rs`, `status.rs`, `version.rs`, `response/`, `rng/`, `error_response.rs`.
- `tests/` — tests of the library.
- `app/` — what lives outside verified code: the html builder functions that keep their
  element stack per thread, an executor spawning threads, and writing pre-rendered pages.

Laws of the library stand in `src/` as public proof functions named `law_*`.
