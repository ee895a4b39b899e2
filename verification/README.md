# keyring-proxy

A reverse proxy that carries requests to one upstream with a ring of API keys. A key that the
upstream refuses, by its status or by a marker in its answer, is left behind, and the request is
tried again with the next key, once for each key of the ring.

`src/` is the library: every decision of the proxy, verified with Verus.

- `config`: what a written configuration means, and why one is refused
- `environment`, `expand`: values that refer to variables as `${NAME}`
- `pool`: the model of the key ring, and the laws that hold of it
- `state`: the ring with its counters
- `headers`: which header fields travel on, and the key that replaces the client's credentials
- `exchange`: what an answer of the upstream means
- `proxy`: the attempts of one request, and what the client is told
- `text`: operations on text

The library's `HeaderMap` is that of the `http` crate; what is taken from its source without proof
stands, as trusted specifications, at the top of `headers`, `exchange`, `proxy` and `text`.

`app/` is the program around it: files, environment, network, logging. It keeps the state behind a
lock and holds the lock for one step at a time.

## Configuration

```yaml
listen: 127.0.0.1:8080
upstream: https://api.example.com
auth_header: x-api-key        # or authorization
keys:
  - ${FIRST_KEY}
  - ${SECOND_KEY}
exhaustion_markers:           # default: "Usage limit reached"
  - Usage limit reached
failover_statuses: [401, 402, 403, 429]
```

`GET /proxy/status` shows the active key and the counters.
