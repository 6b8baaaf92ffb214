# external-dns-webhook-timeweb

An ExternalDNS webhook provider for DNS records in Timeweb Cloud, with its logic
verified by Verus. It supports A, AAAA, CNAME, MX, SRV and TXT records.

## Layout

- `src/` is the library: everything that the provider decides and computes, with
  contracts that Verus proves.
- `app/` is the program around it: the environment, HTTP, JSON and the two servers.
- `tests/` runs the library on concrete values.

In the library, work that needs the network is written as steps. Each step says
what to do next (fetch a page, send a request) and is handed what came of it; the
program only carries the steps out.

| Module | What it holds |
| --- | --- |
| `text`, `numbers`, `order`, `names`, `address` | texts, decimal numbers, sorted lists, DNS names and zones, IP addresses |
| `model`, `timeweb`, `error` | endpoints and changes, records of the API, failures |
| `domain_filter` | which domains are managed |
| `targets` | how record targets are compared, read and written, and in which zone |
| `grouping` | from records to endpoints |
| `plan`, `plan_laws` | the operations that a set of changes takes, and what holds of every plan |
| `provider`, `apply` | checking changes, loading records and applying changes step by step |
| `client`, `listing`, `answer` | requests, lists in pages, and what answers mean |
| `roundtrip`, `effect` | what is written is read back, and what a plan comes to at the API |
| `webhook`, `metrics` | what ExternalDNS is answered, and the counters |
| `config` | the settings |
| `outside` | what is believed of other crates |

Proof functions whose names start with `law_` state what holds of the library as a
whole.

## What is believed

`outside` holds the claims that are not proved: of `regex` (whether a pattern
compiles and matches), `url` (what a text is as a URL, and how its parts are
changed), `humantime` (what duration a text stands for), and of two functions of
std. Mostly they say no more than that a result depends on nothing but the
arguments.

## Configuration

| Variable | Required | Default |
| --- | --- | --- |
| `TIMEWEB_CLOUD_TOKEN` | Yes | — |
| `TIMEWEB_CLOUD_API_URL` | No | `https://api.timeweb.cloud` |
| `TIMEWEB_CLOUD_LISTEN_ADDR` | No | `127.0.0.1:8888` |
| `TIMEWEB_CLOUD_METRICS_ADDR` | No | `0.0.0.0:8080` |
| `TIMEWEB_CLOUD_HTTP_TIMEOUT` | No | `10s` |
| `DOMAIN_FILTER` | No | Empty |
| `EXCLUDE_DOMAIN_FILTER` | No | Empty |
| `REGEXP_DOMAIN_FILTER` | No | Empty |
| `REGEXP_DOMAIN_FILTER_EXCLUSION` | No | Empty |
| `RUST_LOG` | No | `info` |

`DOMAIN_FILTER` and `EXCLUDE_DOMAIN_FILTER` accept comma-separated domain names.
Regular-expression filters take precedence when configured.
