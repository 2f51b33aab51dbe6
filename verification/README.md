# Default worker-selection policy

A KV-cache-aware router asks a policy which worker gets a request. This is the default policy:
each eligible worker gets a cost from its cache overlap with the request and from its load, and
the policy picks by cost.

The library under `src/` is verified with Verus.

| Module       | What it holds                                                              |
|--------------|----------------------------------------------------------------------------|
| `binary64`   | IEEE 754 `binary64` arithmetic over 64-bit words, rounded to nearest even  |
| `config`     | the router settings that the policy reads                                  |
| `inputs`     | what a selection reads of the request and of each worker                   |
| `cost`       | the cost of one worker                                                     |
| `scorer`     | the same cost, with what all workers share worked out once                 |
| `picker`     | the choice among costed workers: lowest cost, pinned, or to be sampled     |
| `softmax`    | sampling by softmax, on either side of the exponential                     |
| `stream`     | random draws, from a seed or from the thread's generator                   |
| `policy`     | construction of policies, factories and selectors                          |
| `parameters` | startup parameters: checking and applying them                             |
| `laws`       | what holds of the policy as a whole                                        |

Costs are computed in the library itself, so contracts speak of the exact result of each step and
of its rounding. Two steps stay with the caller, because they are floating point by nature: the
exponential of softmax, and the draw of a number between zero and one.

`app/` plugs the library into the router: it converts values, holds the locks that selectors share
a random stream through, and registers the policy with the plugin catalog.
