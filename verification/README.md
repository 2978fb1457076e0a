# try

Find, create and jump into project directories.

Every project lives under one root, `$TRY_PATH` or `~/try`, and is a single
directory named after itself. A name is an identity: `try redis` always means
the same place.

```
try                                           browse every project
try notes                                     enter <root>/notes
try https://github.com/goofansu/try.git       clone it as goofansu-try
try git@github.com:goofansu/try.git           the same, over ssh
try https://github.com/goofansu/try/pull/123  clone it as goofansu-try-pr-123
try ./                                        worktree goofansu/try as try
try patch ./                                  the same worktree, named patch
try --init fish                               print the fish function to eval
```

## Layout

`src/` is the library, verified with Verus. It makes every decision and touches
nothing: what has to be found out or done is handed out as a question, and the
answer is handed back.

| Module | What it settles |
| --- | --- |
| `command` | what the arguments mean, and how a project is entered |
| `source`, `url`, `git` | what a source is, what it is called, how it fills a directory |
| `naming` | the laws of derived names |
| `store` | where the root is, what counts as a project, what a name may look like |
| `picker`, `fuzzy`, `theme`, `browse` | what the picker shows and what each key does |
| `shell` | the shell function, and how the destination reaches it |
| `paths`, `text`, `number`, `order` | paths, text, numbers and sorting |
| `system`, `error` | the questions and answers, and what can go wrong |

`app/` is the program around it: arguments, environment, disk, git and terminal.
`tests/` runs the library on a pretended world.
