# signing_proxy

A reverse proxy that signs the requests it passes on, and the file server behind it.

The server draws a random key string, hashes it with SHA-256 and registers the hex
digest with the proxy. The proxy stores that secret and puts it on an
`X-Proxy-Signature` line in front of every `GET` and upload it forwards; the server
serves only requests that carry it. The server lists, shows and stores files and
escapes whatever it places in its HTML pages.

Layout:

- `src/text.rs`: the character-level operations the parsers use (lines, words,
  trimming, searching, splitting, replacing, decimal numerals), each with its
  specification.
- `src/proxy.rs`: the proxy's request parser, its state machine (registration,
  icon, refusal, forwarding) and the request it sends to the server.
- `src/server.rs`: the server's request parser, signature check, routing decisions,
  upload naming and responses, and its registration request.
- `src/html.rs`: HTML escaping, template filling and the sorted file listing.
- `src/secret.rs`: the random key string and the hex SHA-256 secret.
- `src/laws.rs`: proofs that the two sides agree: the registered secret is the one
  the proxy signs with; the server reads back the signature, method, path and body
  of a forwarded `GET`, and the signature, file name and content of a forwarded
  upload.
- `app/`: sockets, threads, files and console output; run with `proxy` or `server`.
