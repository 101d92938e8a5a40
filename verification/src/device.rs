//! The devices around the bar: the virtual keyboard, the digitizer, and how device files are
//! opened.

use vstd::prelude::*;

verus! {

/// The longest time, in milliseconds, between two looks at the backlight.
pub const TIMEOUT_MS: i32 = 30000;

/// The size of the name field of a virtual device.
pub const NAME_SIZE: usize = 80;

/// The name of the virtual keyboard.
pub const DEVICE_NAME: &'static str = "Dynamic Function Row Virtual Input Device";

/// What the kernel is told about the virtual keyboard.
#[derive(Clone, Copy, Debug)]
pub struct DeviceSetup {
    pub bustype: u16,
    pub vendor: u16,
    pub product: u16,
    pub version: u16,
    pub ff_effects_max: u32,
    /// The name, filled up with zeros.
    pub name: [u8; NAME_SIZE],
}

/// The access mode bits of the flags of `open`.
#[derive(Clone, Copy, Debug)]
pub struct AccessModes {
    /// The bits that hold the mode.
    pub mask: i32,
    pub read_only: i32,
    pub write_only: i32,
    pub read_write: i32,
}

/// How to open a file.
#[derive(Clone, Copy, Debug, PartialEq, Eq, Structural)]
pub struct OpenMode {
    pub read: bool,
    pub write: bool,
}

/// Bytes, filled up with zeros to the size of the name field.
pub open spec fn padded(bytes: Seq<u8>) -> Seq<u8> {
    Seq::new(
        NAME_SIZE as nat,
        |i: int|
            if i < bytes.len() {
                bytes[i]
            } else {
                0
            },
    )
}

/// The bytes of a text of ASCII characters.
pub open spec fn ascii(text: Seq<char>) -> Seq<u8> {
    Seq::new(text.len(), |i: int| text[i] as u8)
}

/// Whether `part` occurs in `text`.
pub open spec fn occurs_in(part: Seq<char>, text: Seq<char>) -> bool {
    exists|i: int|
        0 <= i && i + part.len() <= text.len() && #[trigger] text.subrange(i, i + part.len())
            == part
}

/// `str::contains` with a string as its pattern: whether a part of the text equals the pattern.
#[verifier::external_body]
fn str_contains(text: &str, part: &str) -> (r: bool)
    ensures
        r == occurs_in(part@, text@),
{
    text.contains(part)
}

/// Whether a device of this name is the digitizer of a touch bar.
pub fn is_touch_bar(name: &str) -> (r: bool)
    ensures
        r == occurs_in(" Touch Bar"@, name@),
{
    str_contains(name, " Touch Bar")
}

/// The name field that holds the given bytes.
pub fn name_field(bytes: &[u8]) -> (name: [u8; NAME_SIZE])
    requires
        bytes@.len() <= NAME_SIZE,
    ensures
        name@ == padded(bytes@),
{
    let mut name: [u8; NAME_SIZE] = [0; NAME_SIZE];
    let mut i: usize = 0;
    while i < bytes.len()
        invariant
            i <= bytes@.len() <= NAME_SIZE,
            name@.len() == NAME_SIZE,
            forall|j: int|
                0 <= j < NAME_SIZE ==> #[trigger] name@[j] == (if j < i {
                    bytes@[j]
                } else {
                    0
                }),
        decreases bytes@.len() - i,
    {
        name[i] = bytes[i];
        i = i + 1;
    }
    assert(name@ =~= padded(bytes@));
    name
}

/// The virtual keyboard as it is announced to the kernel.
pub fn device_setup() -> (setup: DeviceSetup)
    ensures
        setup.bustype == 0x19,
        setup.vendor == 0x1209,
        setup.product == 0x316E,
        setup.version == 1,
        setup.ff_effects_max == 0,
        setup.name@ == padded(ascii("Dynamic Function Row Virtual Input Device"@)),
{
    proof {
        reveal_strlit("Dynamic Function Row Virtual Input Device");
        vstd::utf8::is_ascii_chars_encode_utf8(DEVICE_NAME@);
        assert(vstd::utf8::encode_utf8(DEVICE_NAME@) =~= ascii(DEVICE_NAME@));
    }
    DeviceSetup {
        bustype: 0x19,
        vendor: 0x1209,
        product: 0x316E,
        version: 1,
        ff_effects_max: 0,
        name: name_field(DEVICE_NAME.as_bytes()),
    }
}

/// The access modes of Linux: the three modes are the numbers from zero to two, and the bits that
/// hold them are the lowest two and, with some C libraries, the bit of `O_PATH`.
pub open spec fn linux_modes(modes: AccessModes) -> bool {
    &&& modes.read_only == 0
    &&& modes.write_only == 1
    &&& modes.read_write == 2
    &&& modes.mask == 3 || modes.mask == 0x20_0003
}

/// The constants `O_ACCMODE`, `O_RDONLY`, `O_WRONLY` and `O_RDWR` of `libc`, with the values that
/// they have on Linux. Which of the two masks it is depends on the C library.
#[verifier::external_body]
fn access_modes() -> (modes: AccessModes)
    ensures
        linux_modes(modes),
{
    AccessModes {
        mask: libc::O_ACCMODE,
        read_only: libc::O_RDONLY,
        write_only: libc::O_WRONLY,
        read_write: libc::O_RDWR,
    }
}

/// How to open a file for the given flags, if these are the access modes.
pub open spec fn spec_open_mode(flags: i32, modes: AccessModes) -> OpenMode {
    let mode = flags & modes.mask;
    OpenMode {
        read: mode == modes.read_only || mode == modes.read_write,
        write: mode == modes.write_only || mode == modes.read_write,
    }
}

/// How to open a file for the given flags, if these are the access modes.
pub fn open_mode(flags: i32, modes: AccessModes) -> (r: OpenMode)
    ensures
        r == spec_open_mode(flags, modes),
{
    let mode: i32 = flags & modes.mask;
    OpenMode {
        read: mode == modes.read_only || mode == modes.read_write,
        write: mode == modes.write_only || mode == modes.read_write,
    }
}

/// How to open a file for the flags that the input library asks with. Unless they hold `O_PATH`,
/// the lowest two bits decide.
pub fn restricted_mode(flags: i32) -> (r: OpenMode)
    ensures
        exists|modes: AccessModes|
            #[trigger] linux_modes(modes) && r == spec_open_mode(flags, modes),
        flags & 0x20_0000 == 0 ==> r.read == (flags & 3 == 0 || flags & 3 == 2),
        flags & 0x20_0000 == 0 ==> r.write == (flags & 3 == 1 || flags & 3 == 2),
{
    let modes: AccessModes = access_modes();
    assert(flags & 0x20_0000 == 0 ==> flags & 0x20_0003 == flags & 3) by (bit_vector);
    open_mode(flags, modes)
}

/// A file is opened for reading if its access mode is one of those that allow it, and for writing
/// likewise; the mode is what the flags hold of the mask.
pub proof fn law_access_mode_decides(flags: i32, modes: AccessModes)
    ensures
        flags & modes.mask == modes.read_only ==> spec_open_mode(flags, modes).read,
        flags & modes.mask == modes.write_only ==> spec_open_mode(flags, modes).write,
        flags & modes.mask == modes.read_write ==> spec_open_mode(flags, modes) == (OpenMode {
            read: true,
            write: true,
        }),
        spec_open_mode(flags, modes).read ==> flags & modes.mask == modes.read_only || flags
            & modes.mask == modes.read_write,
        spec_open_mode(flags, modes).write ==> flags & modes.mask == modes.write_only || flags
            & modes.mask == modes.read_write,
{
}

/// A name field begins with the name and holds nothing but zeros after it.
pub proof fn law_name_is_followed_by_zeros(bytes: Seq<u8>, i: int)
    requires
        bytes.len() <= 80,
        0 <= i < 80,
    ensures
        padded(bytes).len() == 80,
        i < bytes.len() ==> padded(bytes)[i] == bytes[i],
        i >= bytes.len() ==> padded(bytes)[i] == 0,
        forall|text: Seq<char>|
            #![trigger ascii(text)]
            ascii(text).len() == text.len() && (i < text.len() ==> ascii(text)[i] == text[i] as u8),
{
}

} // verus!
