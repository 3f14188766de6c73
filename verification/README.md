# IgniteMS

A batch text embedding engine. It takes texts and gives embeddings, in the order of the input.

The library under `src/` holds the decisions and the data of the engine. Its own logic is verified
with Verus. What it takes from other crates and from the standard library is trusted and not
verified: the functions marked `external_body`, which call them, the `assume_specification` items,
and the outside types and results that these name. Each says in its comment what it claims.

- normalizing and tokenizing texts (`normalize`, `tokenize`, `cache`, `worker`)
- what is asked of a tokenizer before it is used (`components`, `charsmap`, `postprocess`)
- reusing the embeddings of texts that were seen before (`dedup`)
- gathering messages into padded batches by length and in time (`bucket`, `assembler`, `batcher`)
- what becomes of a batch after inference (`delivery`, `sessions`, `inference`)
- putting the rows in the order of the input, and writing them (`reorder`, `collector`, `npy`,
  `output`)
- the configuration, the commands and the input (`config`, `embed`, `bench`, `files`, `input`)
- provisioning models and compiled engines (`provision`)
- counting and reporting (`stats`, `report`, `monitor`)
- what holds of a run as a whole, whatever order its threads work in (`run`, `rows`)

The program under `app/` is the shell around it: the command line, files, threads, processes and the
native inference calls. It looks for the scripts that prepare a model under `IGNITE_MS_SCRIPTS`.

Input is JSONL (`{"text": "..."}`) or plain text, one text per line, and may be compressed (`.zst`,
`.gz`). Output is `.npy`, or `.parquet` with IDs.
