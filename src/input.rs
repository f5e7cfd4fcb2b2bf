use vstd::prelude::*;

use crate::calculator::Key;

verus! {

/// The escape sequence of the F5 key: redraw.
pub open spec fn f5_sequence() -> Seq<u8> {
    seq![0x1bu8, 0x5bu8, 0x31u8, 0x35u8, 0x7eu8]
}

/// The escape sequence of the Delete key: same as backspace.
pub open spec fn delete_sequence() -> Seq<u8> {
    seq![0x1bu8, 0x5bu8, 0x33u8, 0x7eu8]
}

pub open spec fn is_proper_prefix(p: Seq<u8>, s: Seq<u8>) -> bool {
    p.len() < s.len() && s.take(p.len() as int) == p
}

/// The event of a byte read outside an escape sequence: Ctrl-C cancels, CR or LF
/// confirms, BS or DEL erases, Ctrl-R redraws, '_' toggles the sign, ':' enters
/// command mode, other printable ASCII is a character; the rest means nothing.
pub open spec fn spec_decode_byte(b: u8) -> Option<Key> {
    if b == 0x03 {
        Some(Key::Cancel)
    } else if b == 0x0d || b == 0x0a {
        Some(Key::Enter)
    } else if b == 0x08 || b == 0x7f {
        Some(Key::Backspace)
    } else if b == 0x12 {
        Some(Key::Redraw)
    } else if b == 0x5f {
        Some(Key::SignToggle)
    } else if b == 0x3a {
        Some(Key::CommandMode)
    } else if 0x20 <= b <= 0x7e {
        Some(Key::Char(b as char))
    } else {
        None
    }
}

/// Turns the serial byte stream into input events, one byte at a time, recognising
/// the escape sequences of F5 and Delete. Its view is the part of an escape
/// sequence read so far.
pub struct KeyDecoder {
    pending: Vec<u8>,
}

impl View for KeyDecoder {
    type V = Seq<u8>;

    closed spec fn view(&self) -> Seq<u8> {
        self.pending@
    }
}

impl KeyDecoder {
    /// What is pending is always the start of a known escape sequence.
    pub open spec fn wf(&self) -> bool {
        self@.len() == 0 || is_proper_prefix(self@, f5_sequence()) || is_proper_prefix(
            self@,
            delete_sequence(),
        )
    }

    pub fn new() -> (r: Self)
        ensures
            r@ == Seq::<u8>::empty(),
            r.wf(),
    {
        KeyDecoder { pending: Vec::new() }
    }

    /// Reads one byte. Outside an escape sequence the byte decodes on its own (see
    /// `spec_decode_byte`), and ESC starts a sequence. Inside one, a completed
    /// sequence gives its event, a byte that continues it is kept, and any other
    /// byte drops the sequence together with itself.
    pub fn feed(&mut self, b: u8) -> (r: Option<Key>)
        requires
            old(self).wf(),
        ensures
            final(self).wf(),
            old(self)@.len() == 0 && b == 0x1b ==> r is None && final(self)@ == seq![b],
            old(self)@.len() == 0 && b != 0x1b ==> r == spec_decode_byte(b) && final(self)@.len()
                == 0,
            old(self)@.len() > 0 && old(self)@.push(b) == f5_sequence() ==> r == Some(Key::Redraw)
                && final(self)@.len() == 0,
            old(self)@.len() > 0 && old(self)@.push(b) == delete_sequence() ==> r == Some(
                Key::Backspace,
            ) && final(self)@.len() == 0,
            old(self)@.len() > 0 && (is_proper_prefix(old(self)@.push(b), f5_sequence())
                || is_proper_prefix(old(self)@.push(b), delete_sequence())) ==> r is None
                && final(self)@ == old(self)@.push(b),
            old(self)@.len() > 0 && old(self)@.push(b) != f5_sequence() && old(self)@.push(b)
                != delete_sequence() && !is_proper_prefix(old(self)@.push(b), f5_sequence())
                && !is_proper_prefix(old(self)@.push(b), delete_sequence()) ==> r is None
                && final(self)@.len() == 0,
    {
        if self.pending.len() == 0 {
            if b == 0x1b {
                self.pending.push(b);
                assert(f5_sequence().take(1) =~= seq![0x1bu8]);
                assert(self@ =~= seq![b]);
                return None;
            }
            return decode_byte(b);
        }
        self.pending.push(b);
        let p = &self.pending;
        let n = p.len();
        let ghost q = self@;
        proof {
            assert(q.len() >= 2);
            assert(q.take(q.len() - 1) =~= old(self)@);
        }
        // Every pending sequence starts with ESC '[': the byte after decides.
        let is_f5 = n == 5 && p[1] == 0x5b && p[2] == 0x31 && p[3] == 0x35 && p[4] == 0x7e;
        let is_del = n == 4 && p[1] == 0x5b && p[2] == 0x33 && p[3] == 0x7e;
        let f5_prefix = n < 5 && p[1] == 0x5b && (n < 3 || p[2] == 0x31) && (n < 4 || p[3]
            == 0x35);
        let del_prefix = n < 4 && p[1] == 0x5b && (n < 3 || p[2] == 0x33);
        proof {
            assert(q[0] == 0x1b) by {
                if is_proper_prefix(old(self)@, f5_sequence()) {
                    assert(f5_sequence().take(old(self)@.len() as int)[0] == old(self)@[0]);
                } else {
                    assert(delete_sequence().take(old(self)@.len() as int)[0] == old(self)@[0]);
                }
            }
            assert(is_f5 == (q == f5_sequence())) by {
                if q == f5_sequence() {
                    assert(q[1] == f5_sequence()[1]);
                }
                if is_f5 {
                    assert(q =~= f5_sequence());
                }
            }
            assert(is_del == (q == delete_sequence())) by {
                if q == delete_sequence() {
                    assert(q[1] == delete_sequence()[1]);
                }
                if is_del {
                    assert(q =~= delete_sequence());
                }
            }
            assert(f5_prefix == is_proper_prefix(q, f5_sequence())) by {
                if is_proper_prefix(q, f5_sequence()) {
                    assert(q[1] == f5_sequence().take(q.len() as int)[1]);
                    if n >= 3 {
                        assert(q[2] == f5_sequence().take(q.len() as int)[2]);
                    }
                    if n >= 4 {
                        assert(q[3] == f5_sequence().take(q.len() as int)[3]);
                    }
                }
                if f5_prefix {
                    assert(f5_sequence().take(q.len() as int) =~= q);
                }
            }
            assert(del_prefix == is_proper_prefix(q, delete_sequence())) by {
                if is_proper_prefix(q, delete_sequence()) {
                    assert(q[1] == delete_sequence().take(q.len() as int)[1]);
                    if n >= 3 {
                        assert(q[2] == delete_sequence().take(q.len() as int)[2]);
                    }
                }
                if del_prefix {
                    assert(delete_sequence().take(q.len() as int) =~= q);
                }
            }
        }
        if is_f5 {
            self.pending.clear();
            return Some(Key::Redraw);
        }
        if is_del {
            self.pending.clear();
            return Some(Key::Backspace);
        }
        if f5_prefix || del_prefix {
            return None;
        }
        self.pending.clear();
        None
    }
}

fn decode_byte(b: u8) -> (r: Option<Key>)
    ensures
        r == spec_decode_byte(b),
{
    if b == 0x03 {
        Some(Key::Cancel)
    } else if b == 0x0d || b == 0x0a {
        Some(Key::Enter)
    } else if b == 0x08 || b == 0x7f {
        Some(Key::Backspace)
    } else if b == 0x12 {
        Some(Key::Redraw)
    } else if b == 0x5f {
        Some(Key::SignToggle)
    } else if b == 0x3a {
        Some(Key::CommandMode)
    } else if 0x20 <= b && b <= 0x7e {
        Some(Key::Char(b as char))
    } else {
        None
    }
}

} // verus!
