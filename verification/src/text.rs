//! How values read in a line of text: for log lines, and for the address a
//! transport connects to.

use crate::ds::{ascending, lemma_ascending, Accepted};
use crate::env::{IpAddr, ProcessId};
use crate::message::{Message, MessageView};
use crate::pval::{bytes_as_slice, utf8_text, BallotNumber, Command, CommandView, PValue,
    PValueView, SlotNumber};
use vstd::prelude::*;
use vstd::string::*;
use vstd::utf8::{decode_utf8, encode_utf8, encode_utf8_decode_utf8, valid_utf8};

verus! {

/// The port on which every host takes what the network brings.
pub const INCOMING_PORT: u32 = 6060;

/// The character for the digit `d`, for bases up to sixteen.
pub open spec fn digit(d: nat) -> char {
    if d == 0 {
        '0'
    } else if d == 1 {
        '1'
    } else if d == 2 {
        '2'
    } else if d == 3 {
        '3'
    } else if d == 4 {
        '4'
    } else if d == 5 {
        '5'
    } else if d == 6 {
        '6'
    } else if d == 7 {
        '7'
    } else if d == 8 {
        '8'
    } else if d == 9 {
        '9'
    } else if d == 10 {
        'a'
    } else if d == 11 {
        'b'
    } else if d == 12 {
        'c'
    } else if d == 13 {
        'd'
    } else if d == 14 {
        'e'
    } else {
        'f'
    }
}

/// The numeral of `n` in base ten: no sign, no leading zero.
pub open spec fn decimal(n: nat) -> Seq<char>
    decreases n,
{
    if n < 10 {
        seq![digit(n)]
    } else {
        decimal(n / 10).push(digit(n % 10))
    }
}

/// The numeral of `n` in base sixteen: no sign, no leading zero, lower-case
/// letters for the digits from ten on.
pub open spec fn hexadecimal(n: nat) -> Seq<char>
    decreases n,
{
    if n < 16 {
        seq![digit(n)]
    } else {
        hexadecimal(n / 16).push(digit(n % 16))
    }
}

/// The one-character string for the digit `d`.
fn digit_str(d: u8) -> (s: &'static str)
    requires
        d < 16,
    ensures
        s@ == seq![digit(d as nat)],
{
    proof {
        reveal_strlit("0");
        reveal_strlit("1");
        reveal_strlit("2");
        reveal_strlit("3");
        reveal_strlit("4");
        reveal_strlit("5");
        reveal_strlit("6");
        reveal_strlit("7");
        reveal_strlit("8");
        reveal_strlit("9");
        reveal_strlit("a");
        reveal_strlit("b");
        reveal_strlit("c");
        reveal_strlit("d");
        reveal_strlit("e");
        reveal_strlit("f");
    }
    let s = if d == 0 {
        "0"
    } else if d == 1 {
        "1"
    } else if d == 2 {
        "2"
    } else if d == 3 {
        "3"
    } else if d == 4 {
        "4"
    } else if d == 5 {
        "5"
    } else if d == 6 {
        "6"
    } else if d == 7 {
        "7"
    } else if d == 8 {
        "8"
    } else if d == 9 {
        "9"
    } else if d == 10 {
        "a"
    } else if d == 11 {
        "b"
    } else if d == 12 {
        "c"
    } else if d == 13 {
        "d"
    } else if d == 14 {
        "e"
    } else {
        "f"
    };
    assert(s@ =~= seq![digit(d as nat)]);
    s
}

/// Appends the numeral of `n` in base ten to `out`.
pub fn append_decimal(out: &mut String, n: u64)
    ensures
        final(out)@ == old(out)@ + decimal(n as nat),
    decreases n,
{
    if n >= 10 {
        append_decimal(out, n / 10);
    }
    out.append(digit_str((n % 10) as u8));
    assert(out@ =~= old(out)@ + decimal(n as nat));
}

/// Appends the numeral of `n` in base sixteen to `out`.
pub fn append_hexadecimal(out: &mut String, n: u64)
    ensures
        final(out)@ == old(out)@ + hexadecimal(n as nat),
    decreases n,
{
    if n >= 16 {
        append_hexadecimal(out, n / 16);
    }
    out.append(digit_str((n % 16) as u8));
    assert(out@ =~= old(out)@ + hexadecimal(n as nat));
}

/// The numeral of `n` in base ten.
pub fn decimal_string(n: u64) -> (s: String)
    ensures
        s@ == decimal(n as nat),
{
    let mut s = String::new();
    append_decimal(&mut s, n);
    assert(s@ =~= decimal(n as nat));
    s
}

impl IpAddr {
    /// The `i`-th octet of a version 4 address, counted from the left.
    pub open spec fn octet(a: u32, i: nat) -> nat {
        if i == 0 {
            (a / 0x100_0000) as nat
        } else if i == 1 {
            (a / 0x1_0000 % 0x100) as nat
        } else if i == 2 {
            (a / 0x100 % 0x100) as nat
        } else {
            (a % 0x100) as nat
        }
    }

    /// The `i`-th group of sixteen bits of a version 6 address, counted
    /// from the left.
    pub open spec fn group(a: u128, i: nat) -> nat {
        if i == 0 {
            (a / 0x1_0000_0000_0000_0000_0000_0000_0000) as nat
        } else if i == 1 {
            (a / 0x1_0000_0000_0000_0000_0000_0000 % 0x1_0000) as nat
        } else if i == 2 {
            (a / 0x1_0000_0000_0000_0000_0000 % 0x1_0000) as nat
        } else if i == 3 {
            (a / 0x1_0000_0000_0000_0000 % 0x1_0000) as nat
        } else if i == 4 {
            (a / 0x1_0000_0000_0000 % 0x1_0000) as nat
        } else if i == 5 {
            (a / 0x1_0000_0000 % 0x1_0000) as nat
        } else if i == 6 {
            (a / 0x1_0000 % 0x1_0000) as nat
        } else {
            (a % 0x1_0000) as nat
        }
    }

    /// The first `n` octets of a version 4 address in decimal, with dots
    /// between them.
    pub open spec fn octets_text(a: u32, n: nat) -> Seq<char>
        decreases n,
    {
        if n == 0 {
            Seq::empty()
        } else if n == 1 {
            decimal(Self::octet(a, 0))
        } else {
            Self::octets_text(a, (n - 1) as nat) + seq!['.'] + decimal(
                Self::octet(a, (n - 1) as nat),
            )
        }
    }

    /// The first `n` groups of a version 6 address in hexadecimal, with
    /// colons between them.
    pub open spec fn groups_text(a: u128, n: nat) -> Seq<char>
        decreases n,
    {
        if n == 0 {
            Seq::empty()
        } else if n == 1 {
            hexadecimal(Self::group(a, 0))
        } else {
            Self::groups_text(a, (n - 1) as nat) + seq![':'] + hexadecimal(
                Self::group(a, (n - 1) as nat),
            )
        }
    }

    /// The address in text: four decimal octets with dots between them, or
    /// eight hexadecimal groups with colons between them, none left out.
    pub open spec fn text(self) -> Seq<char> {
        match self {
            IpAddr::V4(a) => Self::octets_text(a, 4),
            IpAddr::V6(a) => Self::groups_text(a, 8),
        }
    }

    fn octet_of(a: u32, i: usize) -> (r: u64)
        requires
            i < 4,
        ensures
            r == Self::octet(a, i as nat),
    {
        if i == 0 {
            (a / 0x100_0000) as u64
        } else if i == 1 {
            (a / 0x1_0000 % 0x100) as u64
        } else if i == 2 {
            (a / 0x100 % 0x100) as u64
        } else {
            (a % 0x100) as u64
        }
    }

    fn group_of(a: u128, i: usize) -> (r: u64)
        requires
            i < 8,
        ensures
            r == Self::group(a, i as nat),
    {
        if i == 0 {
            (a / 0x1_0000_0000_0000_0000_0000_0000_0000) as u64
        } else if i == 1 {
            (a / 0x1_0000_0000_0000_0000_0000_0000 % 0x1_0000) as u64
        } else if i == 2 {
            (a / 0x1_0000_0000_0000_0000_0000 % 0x1_0000) as u64
        } else if i == 3 {
            (a / 0x1_0000_0000_0000_0000 % 0x1_0000) as u64
        } else if i == 4 {
            (a / 0x1_0000_0000_0000 % 0x1_0000) as u64
        } else if i == 5 {
            (a / 0x1_0000_0000 % 0x1_0000) as u64
        } else if i == 6 {
            (a / 0x1_0000 % 0x1_0000) as u64
        } else {
            (a % 0x1_0000) as u64
        }
    }

    /// Appends the address in text to `out`.
    pub fn append_text(&self, out: &mut String)
        ensures
            final(out)@ == old(out)@ + self.text(),
    {
        proof {
            reveal_strlit(".");
            reveal_strlit(":");
        }
        match self {
            IpAddr::V4(a) => {
                let mut i: usize = 0;
                assert(out@ =~= old(out)@ + Self::octets_text(*a, 0));
                while i < 4
                    invariant
                        i <= 4,
                        "."@ == seq!['.'],
                        out@ == old(out)@ + Self::octets_text(*a, i as nat),
                    decreases 4 - i,
                {
                    let ghost before = out@;
                    if i > 0 {
                        out.append(".");
                    }
                    append_decimal(out, Self::octet_of(*a, i));
                    assert(out@ =~= old(out)@ + Self::octets_text(*a, (i + 1) as nat));
                    i += 1;
                }
            },
            IpAddr::V6(a) => {
                let mut i: usize = 0;
                assert(out@ =~= old(out)@ + Self::groups_text(*a, 0));
                while i < 8
                    invariant
                        i <= 8,
                        ":"@ == seq![':'],
                        out@ == old(out)@ + Self::groups_text(*a, i as nat),
                    decreases 8 - i,
                {
                    if i > 0 {
                        out.append(":");
                    }
                    append_hexadecimal(out, Self::group_of(*a, i));
                    assert(out@ =~= old(out)@ + Self::groups_text(*a, (i + 1) as nat));
                    i += 1;
                }
            },
        }
    }
}

impl ProcessId {
    /// The identifier in text.
    pub open spec fn text(self) -> Seq<char> {
        "ProcessID(ip:"@ + self.ip.text() + ", port:"@ + decimal(self.port as nat) + ", id:"@
            + decimal(self.id as nat) + ")"@
    }

    /// Appends the identifier in text to `out`.
    pub fn append_text(&self, out: &mut String)
        ensures
            final(out)@ == old(out)@ + self.text(),
    {
        out.append("ProcessID(ip:");
        self.ip.append_text(out);
        out.append(", port:");
        append_decimal(out, self.port as u64);
        out.append(", id:");
        append_decimal(out, self.id as u64);
        out.append(")");
        assert(out@ =~= old(out)@ + self.text());
    }

    /// The identifier in text.
    pub fn to_text(&self) -> (s: String)
        ensures
            s@ == self.text(),
    {
        let mut s = String::new();
        self.append_text(&mut s);
        assert(s@ =~= self.text());
        s
    }

    /// The end point at which the host of this process takes what the
    /// network brings: its address, and the incoming port.
    pub open spec fn addr_text(self) -> Seq<char> {
        "tcp://"@ + self.ip.text() + ":"@ + decimal(INCOMING_PORT as nat)
    }

    /// The end point at which the host of this process takes what the
    /// network brings.
    pub fn addr_sender(&self) -> (s: String)
        ensures
            s@ == self.addr_text(),
    {
        let mut s = String::new();
        s.append("tcp://");
        self.ip.append_text(&mut s);
        s.append(":");
        append_decimal(&mut s, INCOMING_PORT as u64);
        assert(s@ =~= self.addr_text());
        s
    }
}

impl BallotNumber {
    /// The ballot in text.
    pub open spec fn text(self) -> Seq<char> {
        "BallotNumber(round:"@ + decimal(self.round as nat) + ", "@ + self.process_id.text() + ")"@
    }

    /// Appends the ballot in text to `out`.
    pub fn append_text(&self, out: &mut String)
        ensures
            final(out)@ == old(out)@ + self.text(),
    {
        out.append("BallotNumber(round:");
        append_decimal(out, self.round);
        out.append(", ");
        self.process_id.append_text(out);
        out.append(")");
        assert(out@ =~= old(out)@ + self.text());
    }

    /// The ballot in text.
    pub fn to_text(&self) -> (s: String)
        ensures
            s@ == self.text(),
    {
        let mut s = String::new();
        self.append_text(&mut s);
        assert(s@ =~= self.text());
        s
    }
}

/// The octets of `b` in hexadecimal, two digits each.
pub open spec fn hex_pairs(b: Seq<u8>) -> Seq<char>
    decreases b.len(),
{
    if b.len() == 0 {
        Seq::empty()
    } else {
        hex_pairs(b.drop_last()) + seq![digit((b.last() / 16) as nat), digit((b.last() % 16) as nat)]
    }
}

/// Octets in text: the text they spell in UTF-8 where they spell one, else
/// `0x` and the octets in hexadecimal.
pub open spec fn octets_text(b: Seq<u8>) -> Seq<char> {
    if valid_utf8(b) {
        decode_utf8(b)
    } else {
        "0x"@ + hex_pairs(b)
    }
}

/// Appends the octets of `b` in text to `out`.
pub fn append_octets(out: &mut String, b: &[u8])
    ensures
        final(out)@ == old(out)@ + octets_text(b@),
{
    match utf8_text(b) {
        Some(text) => {
            proof {
                encode_utf8_decode_utf8(text@);
            }
            out.append(text);
        },
        None => {
            out.append("0x");
            let ghost start = out@;
            let mut i: usize = 0;
            assert(out@ =~= start + hex_pairs(b@.take(0)));
            while i < b.len()
                invariant
                    i <= b.len(),
                    out@ == start + hex_pairs(b@.take(i as int)),
                decreases b.len() - i,
            {
                let x = b[i];
                out.append(digit_str(x / 16));
                out.append(digit_str(x % 16));
                proof {
                    let grown = b@.take(i + 1);
                    assert(grown.drop_last() =~= b@.take(i as int));
                    assert(grown.last() == x);
                    assert(out@ =~= start + hex_pairs(grown));
                }
                i += 1;
            }
            assert(b@.take(i as int) =~= b@);
            assert(out@ =~= old(out)@ + octets_text(b@));
        },
    }
}

impl CommandView {
    /// The command in text.
    pub open spec fn text(self) -> Seq<char> {
        "Command("@ + self.client.text() + ","@ + octets_text(self.req_id) + ","@ + octets_text(
            self.operation,
        ) + ")"@
    }
}

impl Command {
    /// Appends the command in text to `out`.
    pub fn append_text(&self, out: &mut String)
        ensures
            final(out)@ == old(out)@ + self@.text(),
    {
        out.append("Command(");
        self.client.append_text(out);
        out.append(",");
        append_octets(out, bytes_as_slice(&self.req_id));
        out.append(",");
        append_octets(out, bytes_as_slice(&self.operation));
        out.append(")");
        assert(out@ =~= old(out)@ + self@.text());
    }

    /// The command in text.
    pub fn to_text(&self) -> (s: String)
        ensures
            s@ == self@.text(),
    {
        let mut s = String::new();
        self.append_text(&mut s);
        assert(s@ =~= self@.text());
        s
    }
}

impl PValueView {
    /// The p-value in text.
    pub open spec fn text(self) -> Seq<char> {
        "PValue("@ + self.ballot.text() + ","@ + decimal(self.slot as nat) + ","@
            + self.command.text() + ")"@
    }
}

impl PValue {
    /// Appends the p-value in text to `out`.
    pub fn append_text(&self, out: &mut String)
        ensures
            final(out)@ == old(out)@ + self@.text(),
    {
        out.append("PValue(");
        self.ballot.append_text(out);
        out.append(",");
        append_decimal(out, self.slot);
        out.append(",");
        self.command.append_text(out);
        out.append(")");
        assert(out@ =~= old(out)@ + self@.text());
    }

    /// The p-value in text.
    pub fn to_text(&self) -> (s: String)
        ensures
            s@ == self@.text(),
    {
        let mut s = String::new();
        self.append_text(&mut s);
        assert(s@ =~= self@.text());
        s
    }
}

/// The entries of `a` for the slots of `slots` in text: each as its slot, a
/// colon and the p-value, with commas between them.
pub open spec fn entries_text(a: Map<SlotNumber, PValueView>, slots: Seq<SlotNumber>) -> Seq<char>
    decreases slots.len(),
{
    if slots.len() == 0 {
        Seq::empty()
    } else {
        let entry = decimal(slots.last() as nat) + ": "@ + a[slots.last()].text();
        if slots.len() == 1 {
            entry
        } else {
            entries_text(a, slots.drop_last()) + ", "@ + entry
        }
    }
}

/// A record in text: its entries in ascending order of slot, in braces.
pub open spec fn accepted_text(a: Map<SlotNumber, PValueView>) -> Seq<char> {
    "{"@ + entries_text(a, ascending(a.dom())) + "}"@
}

impl Accepted {
    /// Appends the record in text to `out`.
    pub fn append_text(&self, out: &mut String)
        ensures
            final(out)@ == old(out)@ + accepted_text(self@),
    {
        let entries = self.iter();
        let ghost slots = ascending(self@.dom());
        out.append("{");
        let ghost start = out@;
        let mut i: usize = 0;
        assert(out@ =~= start + entries_text(self@, slots.take(0)));
        while i < entries.len()
            invariant
                i <= entries.len(),
                slots == ascending(self@.dom()),
                entries@.len() == slots.len(),
                forall|j: int|
                    0 <= j < entries@.len() ==> (#[trigger] entries@[j]).0 == slots[j]
                        && self@.contains_key(entries@[j].0) && entries@[j].1@
                        == self@[entries@[j].0],
                out@ == start + entries_text(self@, slots.take(i as int)),
            decreases entries.len() - i,
        {
            if i > 0 {
                out.append(", ");
            }
            let ghost before = out@;
            append_decimal(out, entries[i].0);
            out.append(": ");
            entries[i].1.append_text(out);
            proof {
                let grown = slots.take(i + 1);
                assert(grown.drop_last() =~= slots.take(i as int));
                assert(grown.last() == entries@[i as int].0);
                assert(out@ =~= start + entries_text(self@, grown));
            }
            i += 1;
        }
        assert(slots.take(i as int) =~= slots);
        out.append("}");
        assert(out@ =~= old(out)@ + accepted_text(self@));
    }
}

impl MessageView {
    /// The message in text.
    pub open spec fn text(self) -> Seq<char> {
        match self {
            MessageView::P1A(id, b) => "P1A("@ + id.text() + ", "@ + b.text() + ")"@,
            MessageView::P1B(id, b, a) => "P1B("@ + id.text() + ", "@ + b.text() + " ,"@
                + accepted_text(a) + ")"@,
            MessageView::P2A(id, b, slot, c) => "P2A("@ + id.text() + ", "@ + b.text() + ", "@
                + decimal(slot as nat) + ", "@ + c.text() + ")"@,
            MessageView::P2B(id, b, slot) => "P2B("@ + id.text() + ", "@ + b.text() + ", "@
                + decimal(slot as nat) + ")"@,
            MessageView::Preempt(id, b) => "PREEMPT("@ + id.text() + ", "@ + b.text() + ")"@,
            MessageView::Adopt(id, b, a) => "ADOPT("@ + id.text() + ", "@ + b.text() + ", "@
                + accepted_text(a) + ")"@,
            MessageView::Decision(id, slot, c) => "DECISION("@ + id.text() + ", "@ + decimal(
                slot as nat,
            ) + ", "@ + c.text() + ")"@,
            MessageView::Request(id, c) => "REQUEST("@ + id.text() + ", "@ + c.text() + ")"@,
            MessageView::Propose(id, slot, c) => "PROPOSE("@ + id.text() + ", "@ + decimal(
                slot as nat,
            ) + ", "@ + c.text() + ")"@,
        }
    }
}

impl Message {
    /// The message in text.
    pub fn to_text(&self) -> (s: String)
        ensures
            s@ == self@.text(),
    {
        let mut s = String::new();
        match self {
            Message::P1A(id, b) => {
                s.append("P1A(");
                id.append_text(&mut s);
                s.append(", ");
                b.append_text(&mut s);
            },
            Message::P1B(id, b, a) => {
                s.append("P1B(");
                id.append_text(&mut s);
                s.append(", ");
                b.append_text(&mut s);
                s.append(" ,");
                a.append_text(&mut s);
            },
            Message::P2A(id, b, slot, c) => {
                s.append("P2A(");
                id.append_text(&mut s);
                s.append(", ");
                b.append_text(&mut s);
                s.append(", ");
                append_decimal(&mut s, *slot);
                s.append(", ");
                c.append_text(&mut s);
            },
            Message::P2B(id, b, slot) => {
                s.append("P2B(");
                id.append_text(&mut s);
                s.append(", ");
                b.append_text(&mut s);
                s.append(", ");
                append_decimal(&mut s, *slot);
            },
            Message::Preempt(id, b) => {
                s.append("PREEMPT(");
                id.append_text(&mut s);
                s.append(", ");
                b.append_text(&mut s);
            },
            Message::Adopt(id, b, a) => {
                s.append("ADOPT(");
                id.append_text(&mut s);
                s.append(", ");
                b.append_text(&mut s);
                s.append(", ");
                a.append_text(&mut s);
            },
            Message::Decision(id, slot, c) => {
                s.append("DECISION(");
                id.append_text(&mut s);
                s.append(", ");
                append_decimal(&mut s, *slot);
                s.append(", ");
                c.append_text(&mut s);
            },
            Message::Request(id, c) => {
                s.append("REQUEST(");
                id.append_text(&mut s);
                s.append(", ");
                c.append_text(&mut s);
            },
            Message::Propose(id, slot, c) => {
                s.append("PROPOSE(");
                id.append_text(&mut s);
                s.append(", ");
                append_decimal(&mut s, *slot);
                s.append(", ");
                c.append_text(&mut s);
            },
        }
        s.append(")");
        assert(s@ =~= self@.text());
        s
    }
}

} // verus!
