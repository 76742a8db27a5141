# svm

SVM classifier of plasma discharges, implementing the node outlier protocol.

- `GET /health`: the model's name, the uptime and the time of the last training.
- `POST /predict`: submit a discharge and obtain a disruption prediction.
- `POST /train`: begin a training session over a number of discharges.
- `POST /train/{ordinal}`: push the discharges one after the other. With the
  last one the model is trained.

## Layout

`src/` is the library. It is verified with Verus.

- `doubles`: the order of double-precision numbers, on their bit patterns.
- `arithmetic`: the operations on these numbers that a caller supplies, and the
  statistics made of them.
- `text`: fields between separators, decimal integers.
- `signals`: signals, their extremes, their normalization and their windows.
- `dataset`: the records of all windows of a set of discharges.
- `tables`: the arrays and datasets of `ndarray` and `linfa`.
- `api`: what clients send.
- `training`: the training session, and the dataset of a complete session.
- `prediction`: the dataset of one discharge, and the verdict over it.
- `health`, `identifiers`: the answer to health checks, random identifiers.

`app/` is the service around it: HTTP, files, the support vector machine itself
and floating point. `tests/` exercises the library with real doubles.
