# kube_proto

A verified library for Kubernetes protobuf bodies. Verus proves every function of
`src/` against its contract, but for the wrappers around outside functions.

- `wire`, `fields`: the protobuf wire format. Varints, keys, length-delimited
  values, groups, the split of a message body into fields, and the merge of
  messages that are sent in pieces.
- `layout`: the messages with a fixed layout, and whether a body holds to one.
- `envelope`: the magic bytes and the `Unknown` message around an object, in
  both directions.
- `token_request`: token requests.
- `gnostic`: the minimal `openapi_v2.Document`.
- `schema`, `exceptions`, `presence`: the message types of the API, read from a
  compiled descriptor set, where their JSON form departs from their fields, and
  what stands for fields that were not sent.
- `object`, `dispatch`: decoding of API objects to JSON, by kind and API version.
- `descriptor`: the JSON keys that a fully populated message produces.
- `keys`: what holds of those keys as a whole. Every field contributes its own,
  and no key lies below another.
- `coverage`: the proof that the decoder shows every one of those keys, where all
  fields were sent. Groups are left out: they have no JSON form.
- `json`, `text`, `time`: JSON documents, strings, and instants as RFC 3339 text.

Each module states its model as spec functions and its laws as public proof
functions whose names start with `law_`. The calls into `prost`, `prost_types`,
`serde_json`, `bytes` and `base64` stand behind small wrappers, each with a doc
comment that says what is taken from the outside function.

`app/` turns JSON documents into `serde_json` values. `tests/` runs the library
with the real crates.
