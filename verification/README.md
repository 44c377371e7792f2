# spate_bench

A benchmark harness for streaming pipelines that read Avro from Kafka and write
to ClickHouse. The rules by which a run is described, bounded, judged and
recorded are a Verus library: every function states what it returns, and Verus
proves it.

## The library, `src/`

| module | what it holds |
| --- | --- |
| `corpus` | the messages as a function of `batch_id`, their encoding and framing, what each tier must land, the target tables |
| `avro` | Avro values, and the two calls that turn them into bytes and back |
| `wire` | reading a datum as a typed batch, proving a message field by field |
| `rows` | flattening a batch into rows, from the typed batch and from the decoded value |
| `gates` | the correctness gates: queries, replies, verdict |
| `load` | prefilling a topic, and offering load open-loop at a fixed rate |
| `tables` | what the script for the target tables declares |
| `dataset`, `workload` | the version of the corpus, from the files that define it, and the workload definition with the constants it makes |
| `entrant` | descriptors of the systems under test, and the rules they must keep |
| `environment`, `infra` | hardware profiles, the shared infrastructure, and its caps |
| `sampler` | cgroup series, what they cost an arm, the lock that keeps arms apart |
| `reply`, `fetcher`, `inserter` | the clients that measure the infrastructure's ceiling |
| `driver` | what is about to run, its configuration, when a run is over, what is recorded |
| `report`, `results`, `calendar` | records, and where they are written |
| `select`, `bench` | the selector grammar and the command line |
| `registry`, `kafka` | the schema registry and topics |
| `table`, `text`, `doubles` | tables keyed by text, text, and binary64 numbers by their bits |

Laws that relate several functions are public proof functions whose names begin
with `law_`. What is not proved is the behaviour of outside code: the functions
marked `external_body` and the `assume_specification` items each say what is
taken from it.

## The driver, `app/`

Ordinary Rust around the library: the command line, Docker, HTTP, Kafka, files,
and what is computed in floating point.

## Tests, `tests/`

They run the library, and the outside crates behind it, on concrete values. The
digests of the encoded corpus are pinned there.
