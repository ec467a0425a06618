//! What the inspector computes apart from drawing: the hex dump of a
//! packet, the packet nearest to a packet number, stepping through the
//! packets of a session, and the window of the timeline.

use vstd::prelude::*;
use crate::packet_logger::{EntryView, PacketEntry};
use crate::text::{hex_byte, hex_number_text, push_char, push_hex_byte, push_hex_number};

verus! {

/// The cells of a line of the dump: each byte in hexadecimal, then a space.
pub open spec fn hex_cells(chunk: Seq<u8>) -> Seq<char>
    decreases chunk.len(),
{
    if chunk.len() == 0 {
        Seq::empty()
    } else {
        hex_cells(chunk.drop_last()) + hex_byte(chunk.last()) + seq![' ']
    }
}

/// `n` spaces.
pub open spec fn spaces(n: nat) -> Seq<char> {
    Seq::new(n, |i: int| ' ')
}

/// `n` zeros.
pub open spec fn zeros(n: nat) -> Seq<char> {
    Seq::new(n, |i: int| '0')
}

/// A text with spaces behind it up to the given width.
pub open spec fn pad_right(t: Seq<char>, width: nat) -> Seq<char> {
    if t.len() < width {
        t + spaces((width - t.len()) as nat)
    } else {
        t
    }
}

/// A text with zeros before it up to the given width.
pub open spec fn pad_zeros(t: Seq<char>, width: nat) -> Seq<char> {
    if t.len() < width {
        zeros((width - t.len()) as nat) + t
    } else {
        t
    }
}

/// The bytes as characters: the printable ASCII ones as they are, a dot
/// for every other.
pub open spec fn ascii_text(chunk: Seq<u8>) -> Seq<char> {
    Seq::new(
        chunk.len(),
        |i: int|
            if 32 <= chunk[i] < 127 {
                chunk[i] as char
            } else {
                '.'
            },
    )
}

/// One line of the dump: the offset in at least four hexadecimal digits,
/// the cells padded to 48 columns, and the bytes as characters.
pub open spec fn dump_line(offset: nat, chunk: Seq<u8>) -> Seq<char> {
    pad_zeros(hex_number_text(offset), 4) + seq![' ', ' '] + pad_right(hex_cells(chunk), 48)
        + seq![' '] + ascii_text(chunk) + seq!['\n']
}

/// The dump of `data` from `offset` on, `per_line` bytes to a line.
pub open spec fn hex_dump_spec(data: Seq<u8>, per_line: nat, offset: nat) -> Seq<char>
    decreases data.len(),
{
    if data.len() == 0 || per_line == 0 {
        Seq::empty()
    } else {
        let n = if data.len() < per_line {
            data.len()
        } else {
            per_line
        };
        dump_line(offset, data.take(n as int)) + hex_dump_spec(
            data.skip(n as int),
            per_line,
            offset + n,
        )
    }
}

/// The number of hexadecimal digits of `n`.
fn hex_digits(n: u64) -> (r: usize)
    ensures
        r == hex_number_text(n as nat).len(),
        1 <= r <= 16,
    decreases n,
{
    if n < 16 {
        1
    } else {
        let r = hex_digits(n / 16);
        proof {
            lemma_hex_len(n as nat);
        }
        r + 1
    }
}

proof fn lemma_hex_len(n: nat)
    requires
        n <= u64::MAX,
    ensures
        hex_number_text(n).len() <= 16,
        n < 0x10 ==> hex_number_text(n).len() <= 1,
        n < 0x100 ==> hex_number_text(n).len() <= 2,
        n < 0x1000 ==> hex_number_text(n).len() <= 3,
        n < 0x1_0000 ==> hex_number_text(n).len() <= 4,
        n < 0x10_0000 ==> hex_number_text(n).len() <= 5,
        n < 0x100_0000 ==> hex_number_text(n).len() <= 6,
        n < 0x1000_0000 ==> hex_number_text(n).len() <= 7,
        n < 0x1_0000_0000 ==> hex_number_text(n).len() <= 8,
        n < 0x10_0000_0000 ==> hex_number_text(n).len() <= 9,
        n < 0x100_0000_0000 ==> hex_number_text(n).len() <= 10,
        n < 0x1000_0000_0000 ==> hex_number_text(n).len() <= 11,
        n < 0x1_0000_0000_0000 ==> hex_number_text(n).len() <= 12,
        n < 0x10_0000_0000_0000 ==> hex_number_text(n).len() <= 13,
        n < 0x100_0000_0000_0000 ==> hex_number_text(n).len() <= 14,
        n < 0x1000_0000_0000_0000 ==> hex_number_text(n).len() <= 15,
    decreases n,
{
    if n >= 16 {
        lemma_hex_len(n / 16);
    }
}

/// Appends one line of the dump to `s`.
#[verifier::rlimit(40)]
fn push_dump_line(s: &mut String, offset: usize, chunk: &[u8])
    ensures
        final(s)@ == old(s)@ + dump_line(offset as nat, chunk@),
{
    let ghost start = s@;
    let digits = hex_digits(offset as u64);
    let mut k: usize = digits;
    while k < 4
        invariant
            digits <= k,
            k <= 4 || k == digits,
            s@ == start + zeros((k - digits) as nat),
        decreases 4 - k,
    {
        push_char(s, '0');
        k += 1;
        proof {
            assert(start + zeros((k - digits) as nat) =~= (start + zeros(
                (k - 1 - digits) as nat,
            )).push('0'));
        }
    }
    push_hex_number(s, offset as u64);
    push_char(s, ' ');
    push_char(s, ' ');
    let ghost after_offset = s@;
    proof {
        assert(after_offset =~= start + pad_zeros(hex_number_text(offset as nat), 4) + seq![
            ' ',
            ' ',
        ]);
    }
    let mut i: usize = 0;
    let mut width: usize = 0;
    while i < chunk.len()
        invariant
            i <= chunk@.len(),
            s@ == after_offset + hex_cells(chunk@.take(i as int)),
            width == if i <= 16 {
                3 * i
            } else {
                48
            },
            i <= 16 ==> hex_cells(chunk@.take(i as int)).len() == 3 * i,
            i > 16 ==> hex_cells(chunk@.take(i as int)).len() >= 48,
        decreases chunk.len() - i,
    {
        proof {
            let next = chunk@.take(i + 1);
            assert(next.drop_last() == chunk@.take(i as int));
            assert(next.last() == chunk@[i as int]);
        }
        push_hex_byte(s, chunk[i]);
        push_char(s, ' ');
        i += 1;
        if i <= 16 {
            width = 3 * i;
        } else {
            width = 48;
        }
    }
    proof {
        assert(chunk@.take(chunk@.len() as int) == chunk@);
    }
    let ghost cells = hex_cells(chunk@);
    let ghost after_cells = s@;
    let mut w: usize = width;
    while w < 48
        invariant
            width <= w,
            w <= 48 || w == width,
            width < 48 ==> cells.len() == width,
            width >= 48 ==> cells.len() >= 48,
            s@ == after_cells + spaces((w - width) as nat),
        decreases 48 - w,
    {
        push_char(s, ' ');
        w += 1;
        proof {
            assert(after_cells + spaces((w - width) as nat) =~= (after_cells + spaces(
                (w - 1 - width) as nat,
            )).push(' '));
        }
    }
    proof {
        assert(s@ =~= after_offset + pad_right(cells, 48));
    }
    push_char(s, ' ');
    let ghost after_pad = s@;
    let mut j: usize = 0;
    while j < chunk.len()
        invariant
            j <= chunk@.len(),
            s@ == after_pad + ascii_text(chunk@.take(j as int)),
        decreases chunk.len() - j,
    {
        let b = chunk[j];
        let c = if 32 <= b && b < 127 {
            b as char
        } else {
            '.'
        };
        push_char(s, c);
        j += 1;
        proof {
            assert(ascii_text(chunk@.take(j as int)) =~= ascii_text(chunk@.take(j - 1)).push(c));
        }
    }
    proof {
        assert(chunk@.take(chunk@.len() as int) == chunk@);
    }
    push_char(s, '\n');
    proof {
        assert(s@ =~= start + dump_line(offset as nat, chunk@));
    }
}

/// The hex dump of `data`, `bytes_per_line` bytes to a line: offset, bytes
/// in hexadecimal, bytes as characters.
#[verifier::rlimit(40)]
pub fn hex_dump(data: &[u8], bytes_per_line: usize) -> (r: String)
    requires
        bytes_per_line > 0,
    ensures
        r@ == hex_dump_spec(data@, bytes_per_line as nat, 0),
{
    let mut s = String::new();
    let mut offset: usize = 0;
    proof {
        assert(data@.skip(0) == data@);
        assert(s@ + hex_dump_spec(data@, bytes_per_line as nat, 0) =~= hex_dump_spec(
            data@,
            bytes_per_line as nat,
            0,
        ));
    }
    while offset < data.len()
        invariant
            offset <= data@.len(),
            bytes_per_line > 0,
            hex_dump_spec(data@, bytes_per_line as nat, 0) == s@ + hex_dump_spec(
                data@.skip(offset as int),
                bytes_per_line as nat,
                offset as nat,
            ),
        decreases data.len() - offset,
    {
        let ghost head = s@;
        let ghost here = data@.skip(offset as int);
        let n = if data.len() - offset < bytes_per_line {
            data.len() - offset
        } else {
            bytes_per_line
        };
        let chunk = vstd::slice::slice_subrange(data, offset, offset + n);
        proof {
            assert(chunk@ == here.take(n as int));
            assert(here.skip(n as int) == data@.skip(offset + n));
        }
        push_dump_line(&mut s, offset, chunk);
        proof {
            let rest = hex_dump_spec(
                data@.skip(offset + n),
                bytes_per_line as nat,
                (offset + n) as nat,
            );
            assert(head + (dump_line(offset as nat, chunk@) + rest) =~= s@ + rest);
        }
        offset = offset + n;
    }
    proof {
        assert(s@ + Seq::<char>::empty() =~= s@);
    }
    s
}

/// How far the packet number of an entry is from `target`, where the entry
/// has a number.
pub open spec fn distance(entry: EntryView, target: i64) -> Option<nat> {
    match entry.packet_number {
        Some(n) => Some(
            if n >= target {
                (n - target) as nat
            } else {
                (target - n) as nat
            },
        ),
        None => None,
    }
}

/// Whether an entry can be the nearest one: it has a packet number, and
/// its distance from `target` is below the largest signed 64-bit number.
pub open spec fn in_reach(entry: EntryView, target: i64) -> bool {
    distance(entry, target) matches Some(d) && d < i64::MAX
}

/// The index of the packet whose number is nearest to `target`: the first
/// one among those at the least distance. Zero where no packet is in reach.
#[verifier::rlimit(40)]
pub fn find_closest_packet_index(packets: &[PacketEntry], target: i64) -> (r: usize)
    ensures
        (forall|j: int| 0 <= j < packets@.len() ==> !in_reach(#[trigger] packets@[j]@, target))
            ==> r == 0,
        (exists|j: int| 0 <= j < packets@.len() && in_reach(#[trigger] packets@[j]@, target)) ==> {
            &&& r < packets@.len()
            &&& in_reach(packets@[r as int]@, target)
            &&& forall|j: int|
                0 <= j < packets@.len() && in_reach(#[trigger] packets@[j]@, target) ==> {
                    &&& distance(packets@[r as int]@, target)->Some_0 <= distance(
                        packets@[j]@,
                        target,
                    )->Some_0
                    &&& j < r ==> distance(packets@[r as int]@, target)->Some_0 < distance(
                        packets@[j]@,
                        target,
                    )->Some_0
                }
        },
{
    let mut closest: usize = 0;
    let mut min_diff: u64 = 0x7fff_ffff_ffff_ffff;
    let mut i: usize = 0;
    while i < packets.len()
        invariant
            i <= packets@.len(),
            min_diff <= i64::MAX,
            min_diff == i64::MAX ==> closest == 0 && forall|j: int|
                0 <= j < i ==> !in_reach(#[trigger] packets@[j]@, target),
            min_diff < i64::MAX ==> {
                &&& closest < i
                &&& in_reach(packets@[closest as int]@, target)
                &&& distance(packets@[closest as int]@, target) == Some(min_diff as nat)
                &&& forall|j: int|
                    0 <= j < i && in_reach(#[trigger] packets@[j]@, target) ==> {
                        &&& min_diff <= distance(packets@[j]@, target)->Some_0
                        &&& j < closest ==> min_diff < distance(packets@[j]@, target)->Some_0
                    }
            },
        decreases packets.len() - i,
    {
        match packets[i].packet_number {
            Some(n) => {
                let wide: i128 = n as i128 - target as i128;
                let diff: i128 = if wide < 0 {
                    -wide
                } else {
                    wide
                };
                if diff < min_diff as i128 {
                    min_diff = diff as u64;
                    closest = i;
                }
            },
            None => {},
        }
        i += 1;
    }
    closest
}

/// Where the inspector stands in the packets of a session.
#[derive(Clone, Copy, Debug, PartialEq, Eq, Structural)]
pub struct PacketPosition {
    pub packet_index: usize,
    pub packet_details_scroll: u16,
    pub diff_panel_scroll: u16,
}

impl PacketPosition {
    /// Steps to the packet before, if there is one; the panels then scroll
    /// back to their tops.
    pub fn prev_packet(&mut self)
        ensures
            *final(self) == if old(self).packet_index > 0 {
                PacketPosition {
                    packet_index: (old(self).packet_index - 1) as usize,
                    packet_details_scroll: 0,
                    diff_panel_scroll: 0,
                }
            } else {
                *old(self)
            },
    {
        if self.packet_index > 0 {
            self.packet_index -= 1;
            self.packet_details_scroll = 0;
            self.diff_panel_scroll = 0;
        }
    }

    /// Steps to the next of `total` packets, if there is one; the panels
    /// then scroll back to their tops.
    pub fn next_packet(&mut self, total: usize)
        ensures
            *final(self) == if old(self).packet_index + 1 < total {
                PacketPosition {
                    packet_index: (old(self).packet_index + 1) as usize,
                    packet_details_scroll: 0,
                    diff_panel_scroll: 0,
                }
            } else {
                *old(self)
            },
    {
        if total > 0 && self.packet_index < total - 1 {
            self.packet_index += 1;
            self.packet_details_scroll = 0;
            self.diff_panel_scroll = 0;
        }
    }
}

/// The packets that the timeline shows: a window of at most a hundred
/// packets, and no more than the width leaves room for, that starts half a
/// window before the current packet where it can.
pub fn timeline_window(width: u16, current: usize, total: usize) -> (r: (usize, usize))
    ensures
        ({
            let room = if width >= 4 {
                (width - 4) as int
            } else {
                0
            };
            let size = if room < 100 {
                room
            } else {
                100
            };
            let start = if current >= size / 2 {
                current - size / 2
            } else {
                0
            };
            &&& r.0 == start
            &&& r.1 == if start + size < total {
                start + size
            } else {
                total as int
            }
        }),
{
    let room: usize = if width >= 4 {
        (width - 4) as usize
    } else {
        0
    };
    let size: usize = if room < 100 {
        room
    } else {
        100
    };
    let half = size / 2;
    let start = if current >= half {
        current - half
    } else {
        0
    };
    let end = if total >= size && start < total - size {
        start + size
    } else {
        total
    };
    (start, end)
}

} // verus!
