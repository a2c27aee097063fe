//! What tells the daemon that the set of audio devices changed.

use vstd::prelude::*;

verus! {

/// Where device-change notifications come from.
#[derive(Clone, Copy, Debug, PartialEq, Eq, Structural)]
pub enum WatcherBackend {
    CoreAudio,
    Wasapi,
    Uevent,
    /// Nothing reports changes; the caller polls.
    Unsupported,
}

/// Short name of a backend.
pub open spec fn backend_name(b: WatcherBackend) -> Seq<char> {
    match b {
        WatcherBackend::CoreAudio => "coreaudio"@,
        WatcherBackend::Wasapi => "wasapi"@,
        WatcherBackend::Uevent => "uevent"@,
        WatcherBackend::Unsupported => "none"@,
    }
}

impl WatcherBackend {
    pub fn backend(&self) -> (name: &'static str)
        ensures
            name@ == backend_name(*self),
    {
        match self {
            WatcherBackend::CoreAudio => "coreaudio",
            WatcherBackend::Wasapi => "wasapi",
            WatcherBackend::Uevent => "uevent",
            WatcherBackend::Unsupported => "none",
        }
    }
}

/// The bytes of "SUBSYSTEM=sound".
pub open spec fn sound_field() -> Seq<u8> {
    seq![83u8, 85, 66, 83, 89, 83, 84, 69, 77, 61, 115, 111, 117, 110, 100]
}

/// A whole field of the message, from its start or a NUL to its end or a NUL, starts at `i`
/// and names the sound subsystem.
pub open spec fn sound_field_at(msg: Seq<u8>, i: int) -> bool {
    let n = sound_field().len();
    &&& 0 <= i <= msg.len() - n
    &&& msg.subrange(i, i + n) == sound_field()
    &&& i == 0 || msg[i - 1] == 0
    &&& i + n == msg.len() || msg[i + n] == 0
}

/// Is a kernel device event about sound? Such a message is NUL-separated fields; one of them
/// has to be exactly the sound subsystem's, so that other hardware is passed over.
pub fn is_sound_uevent(msg: &[u8]) -> (sound: bool)
    ensures
        sound == exists|i: int| #[trigger] sound_field_at(msg@, i),
{
    let field: [u8; 15] = [83, 85, 66, 83, 89, 83, 84, 69, 77, 61, 115, 111, 117, 110, 100];
    assert(field@ =~= sound_field());
    let len: usize = msg.len();
    if len < 15 {
        return false;
    }
    let mut i: usize = 0;
    while i <= len - 15
        invariant
            len == msg@.len(),
            len >= 15,
            i <= len - 14,
            field@ == sound_field(),
            forall|j: int| 0 <= j < i ==> !#[trigger] sound_field_at(msg@, j),
        decreases len - i,
    {
        let mut k: usize = 0;
        while k < 15 && msg[i + k] == field[k as usize]
            invariant
                k <= 15,
                i + 15 <= len,
                len == msg@.len(),
                field@ == sound_field(),
                forall|j: int| 0 <= j < k ==> msg@[i + j] == #[trigger] field@[j],
            decreases 15 - k,
        {
            k = k + 1;
        }
        if k == 15 {
            assert(msg@.subrange(i as int, i + 15) =~= sound_field());
            if (i == 0 || msg[i - 1] == 0) && (i + 15 == len || msg[i + 15] == 0) {
                assert(sound_field_at(msg@, i as int));
                return true;
            }
        } else {
            assert(msg@.subrange(i as int, i + 15)[k as int] != sound_field()[k as int]);
        }
        assert(!sound_field_at(msg@, i as int));
        i = i + 1;
    }
    false
}

/// A four-character code as a number, first character highest.
pub fn fourcc(b: [u8; 4]) -> (code: u32)
    ensures
        code == b@[0] * 0x100_0000 + b@[1] * 0x1_0000 + b@[2] * 0x100 + b@[3],
{
    b[0] as u32 * 0x100_0000 + b[1] as u32 * 0x1_0000 + b[2] as u32 * 0x100 + b[3] as u32
}

/// The field that is looked for reads "SUBSYSTEM=sound".
pub proof fn law_the_sound_field_reads_as_text(i: int)
    requires
        0 <= i < 15,
    ensures
        "SUBSYSTEM=sound"@.len() == sound_field().len(),
        sound_field()[i] == "SUBSYSTEM=sound"@[i] as int,
{
    reveal_strlit("SUBSYSTEM=sound");
}

/// A message with the field among others is about sound, wherever it stands: alone, first,
/// last or between two others.
pub proof fn law_the_field_is_found_anywhere(before: Seq<u8>, after: Seq<u8>)
    ensures
        ({
            let f = sound_field();
            let nul = seq![0u8];
            &&& sound_field_at(f, 0)
            &&& sound_field_at(f + nul + after, 0)
            &&& sound_field_at(before + nul + f, before.len() as int + 1)
            &&& sound_field_at(before + nul + f + nul + after, before.len() as int + 1)
        }),
{
    let f = sound_field();
    let nul = seq![0u8];
    let n = f.len() as int;
    let at = before.len() as int + 1;
    assert(f.subrange(0, n) =~= f);
    assert((f + nul + after).subrange(0, n) =~= f);
    assert((before + nul + f).subrange(at, at + n) =~= f);
    assert((before + nul + f + nul + after).subrange(at, at + n) =~= f);
}

/// A message is about sound only where the field stands whole between two ends or NULs: a
/// longer field that has it inside is another one.
pub proof fn law_a_longer_field_is_another(msg: Seq<u8>, i: int)
    requires
        sound_field_at(msg, i),
    ensures
        0 <= i && i + 15 <= msg.len(),
        forall|k: int| 0 <= k < 15 ==> #[trigger] msg[i + k] == sound_field()[k],
        i > 0 ==> msg[i - 1] == 0,
        i + 15 < msg.len() ==> msg[i + 15] == 0,
{
    assert forall|k: int| 0 <= k < 15 implies #[trigger] msg[i + k] == sound_field()[k] by {
        assert(msg.subrange(i, i + 15)[k] == msg[i + k]);
    }
}

/// Every backend that reports changes has a name of its own, and none that does is "none".
pub proof fn law_backends_have_their_own_names(a: WatcherBackend, b: WatcherBackend)
    ensures
        backend_name(a) == backend_name(b) ==> a == b,
        backend_name(a) == "none"@ <==> a == WatcherBackend::Unsupported,
        backend_name(a) == "uevent"@ <==> a == WatcherBackend::Uevent,
        backend_name(a) == "wasapi"@ <==> a == WatcherBackend::Wasapi,
{
    reveal_strlit("coreaudio");
    reveal_strlit("wasapi");
    reveal_strlit("uevent");
    reveal_strlit("none");
    assert("coreaudio"@.len() == 9);
    assert("wasapi"@.len() == 6);
    assert("uevent"@.len() == 6);
    assert("none"@.len() == 4);
    assert("wasapi"@[0] == 'w' && "uevent"@[0] == 'u');
}

/// Codes of different characters differ, and the first character counts most.
pub proof fn law_codes_order_by_their_first_character(
    a: [u8; 4],
    b: [u8; 4],
    x: u32,
    y: u32,
)
    requires
        call_ensures(fourcc, (a,), x),
        call_ensures(fourcc, (b,), y),
    ensures
        a@[0] < b@[0] ==> x < y,
        a@[0] == b@[0] && a@[1] < b@[1] ==> x < y,
        a@[0] == b@[0] && a@[1] == b@[1] && a@[2] < b@[2] ==> x < y,
        a@[0] == b@[0] && a@[1] == b@[1] && a@[2] == b@[2] ==> y - x == b@[3] - a@[3],
{
}

} // verus!
