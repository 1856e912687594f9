//! Loader output: what a piece of text becomes on the firmware console and on the
//! serial port.
//!
//! Both, because each covers the other's blind spot: the firmware console is all
//! that is visible on a machine without a serial port, and the serial port is what
//! is left once the firmware is gone.
use vstd::prelude::*;
use vstd::utf8;

verus! {

/// How many code units go to the firmware at once.
pub const UCS2_CHUNK: usize = 96;

/// Text with a carriage return before every line feed, which both channels want.
pub open spec fn with_returns(text: Seq<char>) -> Seq<char>
    decreases text.len(),
{
    if text.len() == 0 {
        Seq::empty()
    } else {
        let before = with_returns(text.drop_last());
        if text.last() == '\n' {
            before.push('\r').push('\n')
        } else {
            before.push(text.last())
        }
    }
}

/// The code unit for a character. One outside the first plane is not a single code
/// unit, and a question mark stands for it.
pub open spec fn unit(c: char) -> u16 {
    if c as u32 <= 0xFFFF {
        (c as u32) as u16
    } else {
        0x3F
    }
}

/// The code units for some characters.
pub open spec fn units(text: Seq<char>) -> Seq<u16> {
    text.map_values(|c: char| unit(c))
}

/// How many chunks some units come in.
pub open spec fn chunk_count(n: int) -> int {
    (n + UCS2_CHUNK - 1) / UCS2_CHUNK as int
}

/// Chunk `k` of some units: as many as a chunk holds, and a terminator.
pub open spec fn chunk(all: Seq<u16>, k: int) -> Seq<u16> {
    let end = if UCS2_CHUNK * (k + 1) < all.len() {
        UCS2_CHUNK * (k + 1)
    } else {
        all.len() as int
    };
    all.subrange(UCS2_CHUNK * k, end).push(0)
}

/// What to send where.
pub struct Output {
    /// Bytes for the serial port.
    pub serial: Vec<u8>,
    /// Terminated strings for the firmware console, one per call.
    pub firmware: Vec<Vec<u16>>,
}

/// Where text goes.
#[derive(Clone, Copy, Debug, PartialEq, Eq, Structural)]
pub struct Console {
    /// Whether the firmware console may still be called.
    pub firmware: bool,
    /// Whether a serial port answered.
    pub have_serial: bool,
}

proof fn lemma_encode_push(text: Seq<char>, c: char)
    ensures
        utf8::encode_utf8(text.push(c)) == utf8::encode_utf8(text) + utf8::encode_scalar(c as u32),
    decreases text.len(),
{
    if text.len() == 0 {
        reveal_with_fuel(utf8::encode_utf8, 2);
        assert(text.push(c).drop_first() =~= Seq::empty());
        assert(utf8::encode_utf8(text.push(c)) =~= utf8::encode_scalar(c as u32));
        assert(utf8::encode_utf8(text) + utf8::encode_scalar(c as u32) =~= utf8::encode_scalar(c as u32));
    } else {
        assert(text.push(c).drop_first() =~= text.drop_first().push(c));
        lemma_encode_push(text.drop_first(), c);
        assert(utf8::encode_utf8(text.push(c)) =~= utf8::encode_utf8(text) + utf8::encode_scalar(c as u32));
    }
}

/// Append the bytes of one character.
fn push_char(out: &mut Vec<u8>, c: char)
    ensures
        final(out)@ == old(out)@ + utf8::encode_scalar(c as u32),
{
    let s = c as u32;
    if s <= 0x7F {
        out.push((s & 0x7F) as u8);
        assert(out@ =~= old(out)@ + utf8::encode_scalar(s));
    } else if s <= 0x7FF {
        out.push(0xC0 | ((s >> 6) & 0x1F) as u8);
        out.push(0x80 | (s & 0x3F) as u8);
        assert(out@ =~= old(out)@ + utf8::encode_scalar(s));
    } else if s <= 0xFFFF {
        out.push(0xE0 | ((s >> 12) & 0x0F) as u8);
        out.push(0x80 | ((s >> 6) & 0x3F) as u8);
        out.push(0x80 | (s & 0x3F) as u8);
        proof {
            utf8::char_is_scalar(c);
        }
        assert(out@ =~= old(out)@ + utf8::encode_scalar(s));
    } else {
        out.push(0xF0 | ((s >> 18) & 0x7) as u8);
        out.push(0x80 | ((s >> 12) & 0x3F) as u8);
        out.push(0x80 | ((s >> 6) & 0x3F) as u8);
        out.push(0x80 | (s & 0x3F) as u8);
        assert(out@ =~= old(out)@ + utf8::encode_scalar(s));
    }
}

impl Console {
    /// A console that has whatever of the two channels exists.
    #[must_use]
    pub fn new(firmware: bool, have_serial: bool) -> (console: Console)
        ensures
            console == (Console { firmware, have_serial }),
    {
        Console { firmware, have_serial }
    }

    /// Forget the firmware console: from here on everything goes to the serial
    /// port alone.
    pub fn firmware_is_gone(&mut self)
        ensures
            *final(self) == (Console { firmware: false, have_serial: old(self).have_serial }),
    {
        self.firmware = false;
    }

    /// Whether a serial port answered.
    #[must_use]
    pub fn have_serial(&self) -> (serial: bool)
        ensures
            serial == self.have_serial,
    {
        self.have_serial
    }

    /// The characters of a text as both channels want them.
    fn characters(s: &str) -> (text: Vec<char>)
        ensures
            text@ == with_returns(s@),
    {
        let mut text: Vec<char> = Vec::new();
        for c in it: s.chars()
            invariant
                it.seq() == s@,
                text@ == with_returns(s@.take(it.index() as int)),
        {
            proof {
                let k = it.index() as int;
                assert(s@.take(k + 1).drop_last() =~= s@.take(k));
                assert(s@.take(k + 1).last() == c);
            }
            if c == '\n' {
                text.push('\r');
            }
            text.push(c);
        }
        assert(s@.take(s@.len() as int) =~= s@);
        text
    }

    /// What a text becomes on each channel.
    pub fn write_str(&self, s: &str) -> (out: Output)
        ensures
            out.serial@ == (if self.have_serial {
                utf8::encode_utf8(with_returns(s@))
            } else {
                Seq::empty()
            }),
            self.firmware ==> {
                let all = units(with_returns(s@));
                &&& out.firmware@.len() == chunk_count(all.len() as int)
                &&& forall|k: int|
                    0 <= k < out.firmware@.len() ==> (#[trigger] out.firmware@[k])@ == chunk(all, k)
            },
            !self.firmware ==> out.firmware@.len() == 0,
    {
        let text = Self::characters(s);
        let serial = if self.have_serial {
            serial_of(&text)
        } else {
            Vec::new()
        };
        let firmware = if self.firmware {
            chunks_of(&text)
        } else {
            Vec::new()
        };
        Output { serial, firmware }
    }
}

/// The bytes of some characters.
fn serial_of(text: &Vec<char>) -> (out: Vec<u8>)
    ensures
        out@ == utf8::encode_utf8(text@),
{
    let mut out: Vec<u8> = Vec::new();
    let mut i: usize = 0;
    assert(text@.take(0) =~= Seq::empty());
    while i < text.len()
        invariant
            i <= text.len(),
            out@ == utf8::encode_utf8(text@.take(i as int)),
        decreases text.len() - i,
    {
        proof {
            assert(text@.take(i + 1) =~= text@.take(i as int).push(text@[i as int]));
            lemma_encode_push(text@.take(i as int), text@[i as int]);
        }
        push_char(&mut out, text[i]);
        i = i + 1;
    }
    assert(text@.take(i as int) =~= text@);
    out
}

/// The chunks of some characters.
fn chunks_of(text: &Vec<char>) -> (out: Vec<Vec<u16>>)
    ensures
        out@.len() == chunk_count(text@.len() as int),
        forall|k: int|
            0 <= k < out@.len() ==> (#[trigger] out@[k])@ == chunk(units(text@), k),
{
    let ghost all = units(text@);
    let mut out: Vec<Vec<u16>> = Vec::new();
    let mut done: usize = 0;
    while done < text.len()
        invariant
            done <= text.len(),
            all == units(text@),
            done == UCS2_CHUNK * out@.len() || (done == text.len() && out@.len() == chunk_count(
                text@.len() as int,
            )),
            out@.len() <= chunk_count(text@.len() as int),
            forall|k: int| 0 <= k < out@.len() ==> (#[trigger] out@[k])@ == chunk(all, k),
        decreases text.len() - done,
    {
        let mut buf: Vec<u16> = Vec::new();
        let ghost start = done as int;
        let ghost k = out@.len() as int;
        while done < text.len() && buf.len() < UCS2_CHUNK
            invariant
                0 <= start <= done <= text.len(),
                all == units(text@),
                buf@.len() == done - start,
                buf@.len() <= UCS2_CHUNK,
                buf@ =~= all.subrange(start, done as int),
            decreases text.len() - done,
        {
            let c = text[done];
            let s = c as u32;
            buf.push(
                if s <= 0xFFFF {
                    s as u16
                } else {
                    0x3F
                },
            );
            done = done + 1;
        }
        buf.push(0);
        assert(buf@ =~= chunk(all, k));
        out.push(buf);
    }
    out
}

/// Bytes with a carriage return before every line feed: what is left to print
/// with when only the serial port can be trusted.
#[must_use]
pub fn serial_bytes(s: &[u8]) -> (out: Vec<u8>)
    ensures
        out@ == bytes_with_returns(s@),
{
    let mut out: Vec<u8> = Vec::new();
    let mut i: usize = 0;
    assert(s@.take(0) =~= Seq::empty());
    while i < s.len()
        invariant
            i <= s.len(),
            out@ == bytes_with_returns(s@.take(i as int)),
        decreases s.len() - i,
    {
        proof {
            assert(s@.take(i + 1).drop_last() =~= s@.take(i as int));
            assert(s@.take(i + 1).last() == s@[i as int]);
        }
        if s[i] == 0x0A {
            out.push(0x0D);
        }
        out.push(s[i]);
        i = i + 1;
    }
    assert(s@.take(i as int) =~= s@);
    out
}

/// Bytes with a carriage return before every line feed.
pub open spec fn bytes_with_returns(s: Seq<u8>) -> Seq<u8>
    decreases s.len(),
{
    if s.len() == 0 {
        Seq::empty()
    } else {
        let before = bytes_with_returns(s.drop_last());
        if s.last() == 0x0A {
            before.push(0x0D).push(0x0A)
        } else {
            before.push(s.last())
        }
    }
}

/// The chunks that the firmware is given hold every code unit once, in order.
pub proof fn law_the_chunks_hold_every_unit(all: Seq<u16>, i: int)
    requires
        0 <= i < all.len(),
    ensures
        0 <= i / 96 < chunk_count(all.len() as int),
        chunk(all, i / 96)[i % 96] == all[i],
        i % 96 < chunk(all, i / 96).len() - 1,
{
}

/// A chunk is never empty, never longer than the firmware is given at once, and
/// ends with a terminator.
pub proof fn law_every_chunk_is_terminated(all: Seq<u16>, k: int)
    requires
        0 <= k < chunk_count(all.len() as int),
    ensures
        2 <= chunk(all, k).len() <= UCS2_CHUNK + 1,
        chunk(all, k).last() == 0,
{
}

/// What a text becomes is what its parts become, wherever it is cut: a line feed
/// gets a carriage return before it, and any other character stays as it is.
pub proof fn law_only_line_feeds_get_a_return(a: Seq<char>, b: Seq<char>, c: char)
    ensures
        with_returns(a + b) == with_returns(a) + with_returns(b),
        with_returns(seq![c]) == (if c == '\n' {
            seq!['\r', '\n']
        } else {
            seq![c]
        }),
        with_returns(Seq::empty()) == Seq::<char>::empty(),
    decreases b.len(),
{
    assert(seq![c].drop_last() =~= Seq::empty());
    assert(with_returns(seq![c].drop_last()) =~= Seq::empty());
    assert(with_returns(seq![c]) =~= (if c == '\n' {
        seq!['\r', '\n']
    } else {
        seq![c]
    }));
    if b.len() == 0 {
        assert(a + b =~= a);
        assert(with_returns(a) + with_returns(b) =~= with_returns(a));
    } else {
        law_only_line_feeds_get_a_return(a, b.drop_last(), c);
        assert((a + b).drop_last() =~= a + b.drop_last());
        assert(with_returns(a + b) =~= with_returns(a) + with_returns(b));
    }
}

/// The same of bytes: ten gets a thirteen before it, and any other byte stays as
/// it is.
pub proof fn law_only_line_feed_bytes_get_a_return(a: Seq<u8>, b: Seq<u8>, c: u8)
    ensures
        bytes_with_returns(a + b) == bytes_with_returns(a) + bytes_with_returns(b),
        bytes_with_returns(seq![c]) == (if c == 10 {
            seq![13u8, 10u8]
        } else {
            seq![c]
        }),
        bytes_with_returns(Seq::empty()) == Seq::<u8>::empty(),
    decreases b.len(),
{
    assert(seq![c].drop_last() =~= Seq::empty());
    assert(bytes_with_returns(seq![c].drop_last()) =~= Seq::empty());
    assert(bytes_with_returns(seq![c]) =~= (if c == 10 {
        seq![13u8, 10u8]
    } else {
        seq![c]
    }));
    if b.len() == 0 {
        assert(a + b =~= a);
        assert(bytes_with_returns(a) + bytes_with_returns(b) =~= bytes_with_returns(a));
    } else {
        law_only_line_feed_bytes_get_a_return(a, b.drop_last(), c);
        assert((a + b).drop_last() =~= a + b.drop_last());
        assert(bytes_with_returns(a + b) =~= bytes_with_returns(a) + bytes_with_returns(b));
    }
}

/// Every character is one code unit, in its place: its own number if sixteen bits
/// hold it, and a question mark otherwise.
pub proof fn law_a_character_is_one_unit(text: Seq<char>, i: int)
    requires
        0 <= i < text.len(),
    ensures
        units(text).len() == text.len(),
        text[i] as u32 <= 0xFFFF ==> units(text)[i] == text[i] as u32,
        text[i] as u32 > 0xFFFF ==> units(text)[i] == '?' as u32,
{
}

/// Every chunk but the last is full, the last holds what is left, and no text is
/// no chunk. What stands at `j` in chunk `k` is the code unit `j` past those of the
/// chunks before it.
pub proof fn law_chunks_are_full_but_for_the_last(all: Seq<u16>, k: int)
    requires
        0 <= k < chunk_count(all.len() as int),
    ensures
        k + 1 < chunk_count(all.len() as int) ==> chunk(all, k).len() == 96 + 1,
        k + 1 == chunk_count(all.len() as int) ==> 96 * k + chunk(all, k).len() - 1 == all.len(),
        forall|j: int|
            0 <= j < chunk(all, k).len() - 1 ==> #[trigger] chunk(all, k)[j] == all[96 * k + j],
        chunk_count(0) == 0,
{
}

/// A channel that is not there gets nothing, and the two do not depend on one another:
/// what the serial port gets is the text whether or not there is a firmware console.
pub proof fn law_a_channel_that_is_not_there_gets_nothing(
    console: Console,
    s: &str,
    out: Output,
)
    requires
        call_ensures(Console::write_str, (&console, s), out),
    ensures
        !console.have_serial ==> out.serial@.len() == 0,
        !console.firmware ==> out.firmware@.len() == 0,
        console.have_serial ==> out.serial@ == utf8::encode_utf8(with_returns(s@)),
        console.firmware && s@.len() > 0 ==> out.firmware@.len() > 0,
{
    if s@.len() > 0 {
        assert(with_returns(s@).len() > 0);
    }
}

/// Once the firmware is gone nothing goes to its console any more.
pub proof fn law_a_console_that_is_gone_stays_gone(console: &mut Console, s: &str, out: Output)
    requires
        call_ensures(Console::firmware_is_gone, (console,), ()),
        call_ensures(Console::write_str, (&*final(console), s), out),
    ensures
        out.firmware@.len() == 0,
        final(console).have_serial == old(console).have_serial,
{
}

} // verus!
