# exercises

A verified library of small data-modelling exercises, written in Verus:

- `dom`: a DOM-like document tree held in an arena (`Document`), with
  parent links, attributes, text, queries (`depth`, `find_by_tag`) and an
  indented HTML renderer.
- `grades`: letter grades, the grade distribution, the highest single score
  and the ranking of students by average score.
- `logs` and `pipeline`: log entries and the per-entry stages of a log
  pipeline (produce, filter, transform, batch).
- `sensor`: the schedule of a simulated temperature sensor.

`app/` holds the runnable demonstrations: the threaded log pipeline, the
asynchronous sensor network, and the floating-point parts (averages, the
statistics pipeline).
