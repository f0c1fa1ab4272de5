# SimpleHF

SimpleHF downloads chosen files of Hugging Face model repositories: it shows the tree of a
repository, queues a selection, and fetches it in ranges, several at a time, with retries and with
partial files that a later run takes up again.

The decisions of the program are a library that is verified with [Verus](https://github.com/verus-lang/verus):

| Module | What it decides |
| --- | --- |
| `text` | splitting, joining, trimming, decimal numbers, order of texts |
| `tree`, `tree_laws` | the tree of a repository, sizes, order and selection |
| `rows` | which rows of the tree are shown |
| `ranges` | how a file is cut into ranges, and which of them are still missing |
| `repo_id`, `paths` | which repositories and paths are accepted, and where files are stored |
| `hub`, `probe` | addresses on the Hub, and what its answers mean |
| `events` | what is reported, and how often |
| `transfer`, `progress` | the attempts for one range or a whole file, and the shared byte counter |
| `download` | the steps of a file from the first request to the finished file |
| `engine` | a job: its start, what waits while it is paused, and its end |
| `queue` | what the engine is given, and what the window shows of a running job |

`app/` is the program around it: the requests, the files, the lines of JSON between the window and
its worker, and the GTK window. `tests/` runs the library on concrete values.

Functions named `law_…` state what holds of several operations together; their doc comments say it
in words.
