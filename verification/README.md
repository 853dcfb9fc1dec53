# attest

**attest** is a test framework for shell scripts. Tests are regular shell functions whose
names begin with `test`; every command in them is an assertion, and a test fails when one
of its commands does.

```sh
testHello() {
	result=$(echo hello | md5sum)
	[ "${result}" = "b1946ac92492d2347c6235b4d2611184  -" ]
}
```

The rules of the framework are a library verified with Verus (`src/`). The command around
it (`app/`) reads files, starts processes and prints.

| | |
|---|---|
| `text`, `words`, `number`, `utf8`, `order`, `offsets` | texts, numbers, sorting, byte offsets |
| `path`, `mounts` | paths by their components; mountinfo |
| `shell`, `syntax`, `parser` | shell scripts, the functions and tests in them, patterns |
| `discovery`, `selection`, `naming`, `cli` | which files and tests are run, and under which names |
| `scheduler`, `runner`, `processes`, `xtrace` | what runs when, and what is written for a test |
| `submounts`, `overlay`, `root`, `setup` | the ephemeral root of a test |
| `cgroup`, `hierarchy` | resource usage, and the search for a usable cgroup |
| `diagnostics`, `snippet`, `diff` | where and why a test failed |
| `status`, `output`, `json` | what is shown of a run |

A few things that are proved of the library:

- a run that does not bail out records every test exactly once, and never more tests run
  at a time than may; one at a time, a run that bails out ends at the first failure;
- the display names of a run never collide, nor do the context directories of tests whose
  names are plain;
- every mount is re-established in a test's root or carried along by one that is, parents
  before children, whatever the order in which they are listed; and no step that keeps a
  test from the host may fail unnoticed;
- a snippet never shows lines outside the failing function;
- quoted paths, escaped JSON strings and escaped mount points come back as they were.
