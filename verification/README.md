# wano

Monitor layout manager for wlroots compositors, with its rules verified in Verus.
One file holds the whole arrangement (position, scale, mode, transform), a daemon
reapplies it when monitors come and go, and a GUI lets you drag the monitors
instead of computing coordinates by hand.

```
wano list              # connected outputs, with their modes
wano save [name]       # remember the current arrangement as a profile
wano apply <name>      # switch to a profile now
wano status            # which profile matches, and how it was assigned
wano daemon            # reapply the matching profile on hotplug
wano-ui                # arrange the monitors visually
```

Profiles live in `~/.config/wano/config.toml` (or `$XDG_CONFIG_HOME/wano`).

## Layout

`src/` is the library. Every function in it carries a contract that Verus proves;
the functions named `law_...` state what holds of several of them together.

| module     | what it holds                                                            |
|------------|--------------------------------------------------------------------------|
| `wl`       | outputs, modes, transforms, settings, and how they are written and read   |
| `scale`    | scale factors: doubles on whole numbers, snapped to the compositor's 120ths |
| `number`   | whole numbers and refresh rates as text                                   |
| `text`     | strings as sequences of characters                                        |
| `order`    | strings in order                                                          |
| `config`   | profiles: keys, settings, names                                           |
| `matching` | which profile describes the connected outputs, and how it is assigned     |
| `state`    | the output manager's state, from events to configurations                 |
| `daemon`   | when to apply which profile                                               |
| `arrange`  | settling a layout without gap or overlap                                  |
| `editor`   | the arranger's drafts, and what applying and saving make of them          |
| `command`  | what the command line says and does                                       |

`app/` is ordinary Rust around it: the command line, the profile file, the Wayland
connection, the event loops and the drawing. `tests/` run the library.
