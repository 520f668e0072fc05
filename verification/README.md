# WTFIS

**Where the fuck is** your project?

`wtfis` is a local-first, inline terminal project finder, and `cdd` is its short
alias. Type a project name, fix a typo, press Enter, and the shell changes into the
selected directory.

```bash
wtfis                    # open inline search
wtfis Mascotify          # search immediately
cdd Mascotify            # short alias
wtfis --set              # configure search roots
```

It matches fuzzily, on the paths it finds when it opens below the configured roots,
and uploads nothing. It runs on Unix systems.

## Layout

`src/` is the logic, verified with [Verus](https://github.com/verus-lang/verus):

| module    | what it holds                                                     |
|-----------|-------------------------------------------------------------------|
| `path`    | paths as bytes: their components, their name, their order         |
| `scan`    | which folders count, and the list of them that a scan gives       |
| `score`   | how well a path matches what was typed                            |
| `rank`    | the matches, the best first                                       |
| `config`  | settings, and the projects that were opened last                  |
| `command` | what the arguments ask for, and what is done about a query        |
| `picker`  | what typing and clicking do                                       |
| `frame`   | what the picker shows                                             |
| `screen`  | areas of the screen, and what ratatui computes about them         |
| `session` | taking over the terminal and giving it back                       |
| `order`   | stable sorting                                                    |
| `lex`     | lexicographic order                                               |
| `text`    | characters and strings                                            |

`app/` is the program around it: the file system, the settings file, the terminal.
`tests/` holds the tests.

## License

MIT
