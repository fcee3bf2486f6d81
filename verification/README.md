# Fox Sharing

A simple network file-sharing system. One program is both the server, which shares a
directory behind a password, and the client, which lists, reads, writes, moves and
removes what is in it.

```
fox-sharing server --port 4242 --root ./share --password "s3cret"
fox-sharing client --addr 127.0.0.1:4242 --password "s3cret" ls /
fox-sharing client --addr 127.0.0.1:4242 --password "s3cret" get /file.txt ./local.txt
fox-sharing client --addr 127.0.0.1:4242 --password "s3cret" put ./local.txt /remote.txt
```

## Layout

`src/` is a library verified with Verus. It does no I/O: it takes what has happened and
says what comes next.

| module     | what it holds                                                           |
|------------|-------------------------------------------------------------------------|
| `path`     | paths as byte strings: components, joining, parents, prefixes           |
| `protocol` | the messages                                                            |
| `frame`    | the header and limit of a message on the wire                           |
| `auth`     | password hashes                                                         |
| `disk`     | what is asked of a disk, and what it answers                            |
| `sanitize` | which path a requested path may stand for                               |
| `entry`    | directory entries and their order                                       |
| `server`   | how each request is carried out                                         |
| `session`  | one connection, from the password to its end                            |
| `client`   | requests, and how answers are taken                                     |
| `transfer` | copying whole files in pieces                                           |
| `tree`     | the directories of a disk, and what creating one does                   |
| `display`  | what a user is shown                                                    |
| `text`     | numbers and columns as text                                             |
| `outside`  | what is believed, without proof, of functions of other crates           |

`app/` is the program around it: the command line, sockets, the disk, and the serialised
form of the messages. `tests/` runs the library on concrete values.

Paths are those of Unix: byte strings divided by `/`.
