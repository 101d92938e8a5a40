# tiny-dfr

A daemon that turns a touch bar into a row of function keys. The bar shows one of two layers of
buttons; a finger on a button presses a key of a virtual keyboard, and holding Fn shows the other
layer.

`src/` is a library, verified with Verus. It decides which keys are pressed, which layer is shown,
where each stroke, label and icon lies, and which pixels are copied:

| module | what it states |
| --- | --- |
| `key`, `uinput` | the keys, their codes and the events written for them |
| `button`, `layer` | the state of a button, the two layers, and what a redraw draws |
| `rounding`, `double`, `coord` | double arithmetic on bit patterns, proved to round correctly |
| `geometry` | where the buttons lie, the strokes that make them up, and which of them a touch hits |
| `accuracy` | how far rounding moves a number |
| `shift`, `picture` | where labels and icons lie: in the middle of their buttons, up to rounding |
| `layout` | that the buttons keep apart, mirror each other, are found by a touch and stay on the bar |
| `touch_bar` | the state of the bar and its answer to every event |
| `history` | what holds over any run of events and redraws |
| `framebuffer` | copying the refreshed rectangles to the screen |
| `config`, `device`, `icon` | the configuration, the devices around the bar, the icon files |

Positions and lengths are handled as the bit patterns of IEEE 754 doubles. Each step is proved to
give the double nearest to the exact result, ties to even, which is what the standard asks of
floating-point hardware. The lengths of a layout neither underflow nor overflow; measured positions
and text sizes may be anything, infinite or not a number included. The tests hold the results
against the doubles of the machine.

`app/` is the program around it: it reads the configuration, opens the devices, paints with cairo
and librsvg what the library lists, and shows the result through DRM. Fonts, how large a text comes
out, the icon files and the brightness of the bar are outside of the library. The program asks
`can_draw`, `can_answer` and `check_clip` before it relies on them and panics where they say no.
