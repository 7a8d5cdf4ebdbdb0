//! The document that stands for an encrypted value inside a stored entry:
//! an object with three lists of numbers, written without white space. The
//! writer and the reader are proved to be inverse to each other.

use vstd::prelude::*;

use crate::types::{EncryptedValue, EncryptedValueView};

verus! {

/// Whether a byte is an ASCII digit.
pub open spec fn is_digit(b: u8) -> bool {
    48 <= b <= 57
}

/// The ASCII digit for a number below ten.
pub open spec fn digit(n: int) -> u8 {
    (48 + n) as u8
}

/// A byte in decimal, without leading zeros.
pub open spec fn decimal(n: u8) -> Seq<u8> {
    if n < 10 {
        seq![digit(n as int)]
    } else if n < 100 {
        seq![digit(n as int / 10), digit(n as int % 10)]
    } else {
        seq![digit(n as int / 100), digit(n as int / 10 % 10), digit(n as int % 10)]
    }
}

/// The bytes in decimal with a comma between each two.
pub open spec fn body(bytes: Seq<u8>) -> Seq<u8>
    decreases bytes.len(),
{
    if bytes.len() == 0 {
        Seq::empty()
    } else if bytes.len() == 1 {
        decimal(bytes[0])
    } else {
        body(bytes.drop_last()) + seq![44u8] + decimal(bytes.last())
    }
}

/// The bytes as a list of numbers in square brackets.
pub open spec fn listed(bytes: Seq<u8>) -> Seq<u8> {
    seq![91u8] + body(bytes) + seq![93u8]
}

/// The text `{"nonce":`.
pub open spec fn nonce_label() -> Seq<u8> {
    seq![123u8, 34, 110, 111, 110, 99, 101, 34, 58]
}

/// The text `,"ciphertext":`.
pub open spec fn ciphertext_label() -> Seq<u8> {
    seq![44u8, 34, 99, 105, 112, 104, 101, 114, 116, 101, 120, 116, 34, 58]
}

/// The text `,"salt":`.
pub open spec fn salt_label() -> Seq<u8> {
    seq![44u8, 34, 115, 97, 108, 116, 34, 58]
}

/// The text `}`.
pub open spec fn closing() -> Seq<u8> {
    seq![125u8]
}

/// The document that stands for an encrypted value: an object with the
/// nonce, the ciphertext and the salt, each a list of numbers, without any
/// white space.
pub open spec fn encode_value(value: EncryptedValueView) -> Seq<u8> {
    nonce_label() + listed(value.nonce) + ciphertext_label() + listed(value.ciphertext)
        + salt_label() + listed(value.salt) + closing()
}

/// Whether `piece` stands in `text` from `pos` on.
pub open spec fn holds_at(text: Seq<u8>, pos: int, piece: Seq<u8>) -> bool {
    &&& 0 <= pos
    &&& pos + piece.len() <= text.len()
    &&& forall|k: int| 0 <= k < piece.len() ==> text[pos + k] == #[trigger] piece[k]
}

/// Reads `piece` at `pos`: the position behind it, where it stands there.
pub open spec fn read_piece(text: Seq<u8>, pos: int, piece: Seq<u8>) -> Option<int> {
    if holds_at(text, pos, piece) {
        Some(pos + piece.len())
    } else {
        None
    }
}

/// Whether a digit stands at `pos`.
pub open spec fn digit_at(text: Seq<u8>, pos: int) -> bool {
    0 <= pos < text.len() && is_digit(text[pos])
}

/// Reads a byte in decimal at `pos`: the byte and the position behind it.
/// There is none where no digit stands there, where a zero leads, where
/// more than three digits follow each other or the number is above 255.
pub open spec fn read_byte(text: Seq<u8>, pos: int) -> Option<(u8, int)> {
    if !digit_at(text, pos) {
        None
    } else if !digit_at(text, pos + 1) {
        Some(((text[pos] - 48) as u8, pos + 1))
    } else if text[pos] == 48 {
        None
    } else if !digit_at(text, pos + 2) {
        Some((((text[pos] - 48) * 10 + (text[pos + 1] - 48)) as u8, pos + 2))
    } else if digit_at(text, pos + 3) {
        None
    } else if (text[pos] - 48) * 100 + (text[pos + 1] - 48) * 10 + (text[pos + 2] - 48) > 255 {
        None
    } else {
        Some(
            (
                ((text[pos] - 48) * 100 + (text[pos + 1] - 48) * 10 + (text[pos + 2] - 48)) as u8,
                pos + 3,
            ),
        )
    }
}

/// Reads one or more bytes with commas between them and a closing bracket
/// behind the last: the bytes and the position behind the bracket.
pub open spec fn read_body(text: Seq<u8>, pos: int) -> Option<(Seq<u8>, int)>
    decreases text.len() - pos,
{
    match read_byte(text, pos) {
        None => None,
        Some((b, next)) => if next < text.len() && text[next] == 93 {
            Some((seq![b], next + 1))
        } else if next < text.len() && text[next] == 44 {
            match read_body(text, next + 1) {
                None => None,
                Some((rest, end)) => Some((seq![b] + rest, end)),
            }
        } else {
            None
        },
    }
}

/// Reads a list of bytes in square brackets at `pos`: the bytes and the
/// position behind the list.
pub open spec fn read_list(text: Seq<u8>, pos: int) -> Option<(Seq<u8>, int)> {
    if !(0 <= pos < text.len() && text[pos] == 91) {
        None
    } else if pos + 1 < text.len() && text[pos + 1] == 93 {
        Some((Seq::empty(), pos + 2))
    } else {
        read_body(text, pos + 1)
    }
}

/// Reads a label and the list behind it.
pub open spec fn read_field(text: Seq<u8>, pos: int, label: Seq<u8>) -> Option<(Seq<u8>, int)> {
    match read_piece(text, pos, label) {
        None => None,
        Some(next) => read_list(text, next),
    }
}

/// The encrypted value that a document stands for: the document is the
/// three fields in their order and nothing else.
pub open spec fn decode_value(text: Seq<u8>) -> Option<EncryptedValueView> {
    match read_field(text, 0, nonce_label()) {
        None => None,
        Some((nonce, at_ciphertext)) => match read_field(text, at_ciphertext, ciphertext_label()) {
            None => None,
            Some((ciphertext, at_salt)) => match read_field(text, at_salt, salt_label()) {
                None => None,
                Some((salt, at_end)) => if read_piece(text, at_end, closing()) == Some(
                    text.len() as int,
                ) {
                    Some(EncryptedValueView { nonce, ciphertext, salt })
                } else {
                    None
                },
            },
        },
    }
}

/// A byte in decimal is read back as the byte, where no digit follows it.
pub proof fn lemma_read_decimal(text: Seq<u8>, pos: int, n: u8)
    requires
        holds_at(text, pos, decimal(n)),
        !digit_at(text, pos + decimal(n).len()),
    ensures
        read_byte(text, pos) == Some((n, pos + decimal(n).len())),
{
    let d = decimal(n);
    assert(text[pos] == d[0]);
    if n >= 10 {
        assert(text[pos + 1] == d[1]);
    }
    if n >= 100 {
        assert(text[pos + 2] == d[2]);
    }
}

/// A list of two or more bytes begins with the first byte and a comma.
pub proof fn lemma_body_front(bytes: Seq<u8>)
    requires
        bytes.len() >= 2,
    ensures
        body(bytes) == decimal(bytes[0]) + seq![44u8] + body(bytes.drop_first()),
    decreases bytes.len(),
{
    let init = bytes.drop_last();
    let tail = bytes.drop_first();
    if bytes.len() == 2 {
        assert(init =~= seq![bytes[0]]);
        assert(tail =~= seq![bytes[1]]);
        assert(body(init) == decimal(bytes[0]));
        assert(body(tail) == decimal(bytes[1]));
    } else {
        lemma_body_front(init);
        assert(init.drop_first() =~= tail.drop_last());
        assert(init[0] == bytes[0]);
        assert(tail.last() == bytes.last());
        assert(body(tail) == body(tail.drop_last()) + seq![44u8] + decimal(tail.last()));
        assert(body(bytes) =~= decimal(bytes[0]) + seq![44u8] + body(tail));
    }
}

/// One or more bytes in decimal with a closing bracket behind them are read
/// back as the bytes.
pub proof fn lemma_read_body(text: Seq<u8>, pos: int, bytes: Seq<u8>)
    requires
        bytes.len() >= 1,
        holds_at(text, pos, body(bytes) + seq![93u8]),
    ensures
        read_body(text, pos) == Some((bytes, pos + body(bytes).len() + 1)),
    decreases bytes.len(),
{
    let piece = body(bytes) + seq![93u8];
    let first = decimal(bytes[0]);
    if bytes.len() == 1 {
        assert(body(bytes) == first);
        assert forall|k: int| 0 <= k < first.len() implies text[pos + k] == #[trigger] first[k] by {
            assert(piece[k] == first[k]);
        }
        assert(text[pos + first.len()] == piece[first.len() as int]);
        lemma_read_decimal(text, pos, bytes[0]);
        assert(seq![bytes[0]] =~= bytes);
    } else {
        let tail = bytes.drop_first();
        lemma_body_front(bytes);
        assert(piece =~= first + seq![44u8] + (body(tail) + seq![93u8]));
        assert forall|k: int| 0 <= k < first.len() implies text[pos + k] == #[trigger] first[k] by {
            assert(piece[k] == first[k]);
        }
        assert(text[pos + first.len()] == piece[first.len() as int]);
        lemma_read_decimal(text, pos, bytes[0]);
        let next = pos + first.len() + 1;
        let rest = body(tail) + seq![93u8];
        assert forall|k: int| 0 <= k < rest.len() implies text[next + k] == #[trigger] rest[k] by {
            assert(piece[first.len() + 1 + k] == rest[k]);
        }
        lemma_read_body(text, next, tail);
        assert(seq![bytes[0]] + tail =~= bytes);
    }
}

/// A list in square brackets is read back as its bytes.
pub proof fn lemma_read_listed(text: Seq<u8>, pos: int, bytes: Seq<u8>)
    requires
        holds_at(text, pos, listed(bytes)),
    ensures
        read_list(text, pos) == Some((bytes, pos + listed(bytes).len())),
{
    let piece = listed(bytes);
    assert(text[pos] == piece[0]);
    if bytes.len() == 0 {
        assert(text[pos + 1] == piece[1]);
        assert(bytes =~= Seq::empty());
    } else {
        let rest = body(bytes) + seq![93u8];
        assert forall|k: int| 0 <= k < rest.len() implies text[pos + 1 + k] == #[trigger] rest[k] by {
            assert(piece[1 + k] == rest[k]);
        }
        lemma_read_body(text, pos + 1, bytes);
        assert(text[pos + 1] == piece[1]);
        if bytes.len() == 1 {
            assert(piece[1] == decimal(bytes[0])[0]);
        } else {
            lemma_body_front(bytes);
            assert(piece[1] == decimal(bytes[0])[0]);
        }
    }
}

/// A label with its list is read back as the bytes of the list.
pub proof fn lemma_read_field(text: Seq<u8>, pos: int, label: Seq<u8>, bytes: Seq<u8>)
    requires
        holds_at(text, pos, label + listed(bytes)),
    ensures
        read_field(text, pos, label) == Some((bytes, pos + label.len() + listed(bytes).len())),
{
    let piece = label + listed(bytes);
    assert forall|k: int| 0 <= k < label.len() implies text[pos + k] == #[trigger] label[k] by {
        assert(piece[k] == label[k]);
    }
    let list = listed(bytes);
    assert forall|k: int| 0 <= k < list.len() implies text[pos + label.len() + k]
        == #[trigger] list[k] by {
        assert(piece[label.len() + k] == list[k]);
    }
    lemma_read_listed(text, pos + label.len(), bytes);
}

/// The document of an encrypted value stands for that value.
pub proof fn lemma_decode_encode(value: EncryptedValueView)
    ensures
        decode_value(encode_value(value)) == Some(value),
{
    let text = encode_value(value);
    let first = nonce_label() + listed(value.nonce);
    let second = ciphertext_label() + listed(value.ciphertext);
    let third = salt_label() + listed(value.salt);
    assert(text =~= first + second + third + closing());
    assert(holds_at(text, 0, first));
    lemma_read_field(text, 0, nonce_label(), value.nonce);
    let at_ciphertext = first.len() as int;
    assert(holds_at(text, at_ciphertext, second));
    lemma_read_field(text, at_ciphertext, ciphertext_label(), value.ciphertext);
    let at_salt = at_ciphertext + second.len();
    assert(holds_at(text, at_salt, third));
    lemma_read_field(text, at_salt, salt_label(), value.salt);
    let at_end = at_salt + third.len();
    assert(holds_at(text, at_end, closing()));
}

/// Appends a byte in decimal.
fn push_decimal(out: &mut Vec<u8>, n: u8)
    ensures
        final(out)@ == old(out)@ + decimal(n),
{
    if n >= 100 {
        out.push(48 + n / 100);
        out.push(48 + n / 10 % 10);
        out.push(48 + n % 10);
    } else if n >= 10 {
        out.push(48 + n / 10);
        out.push(48 + n % 10);
    } else {
        out.push(48 + n);
    }
    assert(out@ =~= old(out)@ + decimal(n));
}

/// Appends bytes as they are.
fn push_all(out: &mut Vec<u8>, piece: &[u8])
    ensures
        final(out)@ == old(out)@ + piece@,
{
    let mut i: usize = 0;
    while i < piece.len()
        invariant
            i <= piece.len(),
            out@ == old(out)@ + piece@.take(i as int),
        decreases piece.len() - i,
    {
        out.push(piece[i]);
        assert(piece@.take(i + 1) =~= piece@.take(i as int).push(piece@[i as int]));
        i += 1;
    }
    assert(piece@.take(piece.len() as int) =~= piece@);
}

/// Appends a list of bytes in square brackets.
fn push_listed(out: &mut Vec<u8>, bytes: &Vec<u8>)
    ensures
        final(out)@ == old(out)@ + listed(bytes@),
{
    out.push(91);
    let mut i: usize = 0;
    assert(bytes@.take(0) =~= Seq::empty());
    while i < bytes.len()
        invariant
            i <= bytes.len(),
            out@ == old(out)@ + seq![91u8] + body(bytes@.take(i as int)),
        decreases bytes.len() - i,
    {
        proof {
            let head = bytes@.take(i as int);
            let next = bytes@.take(i + 1);
            assert(next.drop_last() =~= head);
            assert(next.last() == bytes@[i as int]);
            if i == 1 {
                assert(head =~= seq![bytes@[0]]);
            }
        }
        if i > 0 {
            out.push(44);
        }
        push_decimal(out, bytes[i]);
        assert(out@ =~= old(out)@ + seq![91u8] + body(bytes@.take(i + 1)));
        i += 1;
    }
    out.push(93);
    assert(bytes@.take(bytes.len() as int) =~= bytes@);
    assert(out@ =~= old(out)@ + listed(bytes@));
}

/// The document that stands for an encrypted value.
pub fn encode(value: &EncryptedValue) -> (r: Vec<u8>)
    ensures
        r@ == encode_value(value@),
{
    let mut out: Vec<u8> = Vec::new();
    push_all(&mut out, &[123u8, 34, 110, 111, 110, 99, 101, 34, 58]);
    push_listed(&mut out, &value.nonce);
    push_all(&mut out, &[44u8, 34, 99, 105, 112, 104, 101, 114, 116, 101, 120, 116, 34, 58]);
    push_listed(&mut out, &value.ciphertext);
    push_all(&mut out, &[44u8, 34, 115, 97, 108, 116, 34, 58]);
    push_listed(&mut out, &value.salt);
    push_all(&mut out, &[125u8]);
    assert(out@ =~= encode_value(value@));
    out
}

/// Reads `piece` at `pos`.
fn take_piece(text: &[u8], pos: usize, piece: &[u8]) -> (r: Option<usize>)
    ensures
        match r {
            Some(next) => read_piece(text@, pos as int, piece@) == Some(next as int),
            None => read_piece(text@, pos as int, piece@) is None,
        },
{
    if pos > text.len() || piece.len() > text.len() - pos {
        return None;
    }
    let mut i: usize = 0;
    while i < piece.len()
        invariant
            i <= piece.len(),
            pos + piece.len() <= text.len(),
            forall|k: int| 0 <= k < i ==> text@[pos + k] == #[trigger] piece@[k],
        decreases piece.len() - i,
    {
        if text[pos + i] != piece[i] {
            return None;
        }
        i += 1;
    }
    Some(pos + piece.len())
}

/// Whether a digit stands at `pos`.
fn has_digit(text: &[u8], pos: usize) -> (r: bool)
    ensures
        r == digit_at(text@, pos as int),
{
    pos < text.len() && 48 <= text[pos] && text[pos] <= 57
}

/// Reads a byte in decimal at `pos`.
fn take_byte(text: &[u8], pos: usize) -> (r: Option<(u8, usize)>)
    ensures
        match r {
            Some((b, next)) => read_byte(text@, pos as int) == Some((b, next as int)),
            None => read_byte(text@, pos as int) is None,
        },
{
    if !has_digit(text, pos) {
        return None;
    }
    let d0: u8 = text[pos] - 48;
    if !has_digit(text, pos + 1) {
        return Some((d0, pos + 1));
    }
    if d0 == 0 {
        return None;
    }
    let d1: u8 = text[pos + 1] - 48;
    if !has_digit(text, pos + 2) {
        return Some((d0 * 10 + d1, pos + 2));
    }
    let d2: u8 = text[pos + 2] - 48;
    if has_digit(text, pos + 3) {
        return None;
    }
    let n: u16 = d0 as u16 * 100 + d1 as u16 * 10 + d2 as u16;
    if n > 255 {
        return None;
    }
    Some((n as u8, pos + 3))
}

/// What reading a body gives when `seen` has been read and the rest reads
/// as `rest`.
spec fn extended(seen: Seq<u8>, rest: Option<(Seq<u8>, int)>) -> Option<(Seq<u8>, int)> {
    match rest {
        None => None,
        Some((more, end)) => Some((seen + more, end)),
    }
}

/// Reads a list of bytes in square brackets at `pos`.
fn take_list(text: &[u8], pos: usize) -> (r: Option<(Vec<u8>, usize)>)
    ensures
        match r {
            Some((bytes, next)) => read_list(text@, pos as int) == Some((bytes@, next as int)),
            None => read_list(text@, pos as int) is None,
        },
{
    if !(pos < text.len() && text[pos] == 91) {
        return None;
    }
    let mut out: Vec<u8> = Vec::new();
    if pos + 1 < text.len() && text[pos + 1] == 93 {
        return Some((out, pos + 2));
    }
    let mut at: usize = pos + 1;
    assert(extended(out@, read_body(text@, at as int)) == read_body(text@, pos + 1)) by {
        match read_body(text@, at as int) {
            None => {},
            Some((more, end)) => {
                assert(out@ + more =~= more);
            },
        }
    }
    loop
        invariant
            at <= text.len(),
            extended(out@, read_body(text@, at as int)) == read_list(text@, pos as int),
        decreases text.len() - at,
    {
        match take_byte(text, at) {
            None => {
                return None;
            },
            Some((b, next)) => {
                if next < text.len() && text[next] == 93 {
                    let ghost seen = out@;
                    out.push(b);
                    assert(seen + seq![b] =~= out@);
                    return Some((out, next + 1));
                } else if next < text.len() && text[next] == 44 {
                    proof {
                        match read_body(text@, next + 1) {
                            None => {},
                            Some((more, end)) => {
                                assert(out@ + (seq![b] + more) =~= out@.push(b) + more);
                            },
                        }
                    }
                    out.push(b);
                    at = next + 1;
                } else {
                    return None;
                }
            },
        }
    }
}

/// Reads a label and the list behind it.
fn take_field(text: &[u8], pos: usize, label: &[u8]) -> (r: Option<(Vec<u8>, usize)>)
    ensures
        match r {
            Some((bytes, next)) => read_field(text@, pos as int, label@) == Some(
                (bytes@, next as int),
            ),
            None => read_field(text@, pos as int, label@) is None,
        },
{
    match take_piece(text, pos, label) {
        None => None,
        Some(next) => take_list(text, next),
    }
}

/// The view of an optional encrypted value.
pub open spec fn opt_value(value: Option<EncryptedValue>) -> Option<EncryptedValueView> {
    match value {
        Some(v) => Some(v@),
        None => None,
    }
}

/// The encrypted value that a document stands for, if it stands for one.
pub fn decode(text: &[u8]) -> (r: Option<EncryptedValue>)
    ensures
        opt_value(r) == decode_value(text@),
{
    let nonce_label: [u8; 9] = [123u8, 34, 110, 111, 110, 99, 101, 34, 58];
    let ciphertext_label: [u8; 14] = [
        44u8, 34, 99, 105, 112, 104, 101, 114, 116, 101, 120, 116, 34, 58,
    ];
    let salt_label: [u8; 8] = [44u8, 34, 115, 97, 108, 116, 34, 58];
    let closing: [u8; 1] = [125u8];
    proof {
        assert(nonce_label@ =~= self::nonce_label());
        assert(ciphertext_label@ =~= self::ciphertext_label());
        assert(salt_label@ =~= self::salt_label());
        assert(closing@ =~= self::closing());
    }
    let (nonce, at_ciphertext) = match take_field(text, 0, &nonce_label) {
        None => {
            return None;
        },
        Some(field) => field,
    };
    let (ciphertext, at_salt) = match take_field(text, at_ciphertext, &ciphertext_label) {
        None => {
            return None;
        },
        Some(field) => field,
    };
    let (salt, at_end) = match take_field(text, at_salt, &salt_label) {
        None => {
            return None;
        },
        Some(field) => field,
    };
    match take_piece(text, at_end, &closing) {
        None => None,
        Some(end) => if end == text.len() {
            Some(EncryptedValue { nonce, ciphertext, salt })
        } else {
            None
        },
    }
}

} // verus!
