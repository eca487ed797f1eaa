# LanFlow

File transfer between the devices of a local network. A device shares
directories under a password; another device finds it, logs in, has a snapshot
made of what it wants, and downloads the files in chunks that it can check and
resume.

`src/` is the library: what the two ends say to each other and decide. Its
functions are verified with Verus against their contracts; those in `outside`
call other crates, and what they promise is believed.

| module | what it holds |
| --- | --- |
| `frame`, `big_endian` | frames and their headers |
| `protocol`, `message`, `fields`, `wire` | the messages, and their Protobuf bytes |
| `auth` | the password protocol, proofs of a session, kept passwords |
| `server`, `replies`, `paging` | what is answered to each frame |
| `client` | what is asked, and what is made of the answers |
| `paths`, `listing`, `ordering`, `snapshot` | a share's paths, its listing, its snapshots |
| `lifecycle`, `tasks`, `download` | downloads from their creation to their end, their chunks and how they go on after a stop |
| `store` | values as they are kept in the database |
| `discovery`, `commands`, `models`, `error`, `text` | the devices nearby, what a user can do, and the values for both |
| `outside` | the calls into other crates, with what is believed of each |

The laws of the library are the public proof functions whose names begin with
`law_`.

`app/` is the program around it: sockets, files, the database and the
commands of a user interface. `tests/` runs the library on concrete values.
