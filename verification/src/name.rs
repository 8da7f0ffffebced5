//! Wire encoding of domain names.
//!
//! On the wire a name is a sequence of labels, each prefixed by a one-byte
//! length (0 to 63), terminated by a zero-length byte. The whole encoding may
//! not exceed 255 octets. A length byte with the top two bits set is a
//! compression pointer: its low 14 bits are an offset into the same message
//! where the rest of the name continues. Pointer chases are bounded to reject
//! loops.
//!
//! A name value is held as its labels, most significant label last, exactly
//! as written left to right in the dotted form ("example" then "com").

use vstd::prelude::*;

verus! {

/// Why a message body (a name, question or resource record) failed to
/// encode or decode.
#[derive(Clone, Copy, Debug, PartialEq, Eq, Structural)]
pub enum DNSBodyParseError {
    /// The buffer ended before the field did.
    Truncated,
    /// A label length byte was in the reserved range 64 to 191, or a label
    /// to encode was longer than 63 bytes.
    InvalidLabelLength,
    /// The encoded name would exceed 255 octets.
    NameTooLong,
    /// Following compression pointers exceeded the chase bound.
    CompressionPointerLoop,
    /// A 16-bit record type value outside the enumeration.
    InvalidRecordType,
    /// A 16-bit class value outside the enumeration.
    InvalidClassCode,
}

/// How many compression pointers one name may follow before the decoder
/// reports a pointer loop.
pub const MAX_POINTER_CHASE: u8 = 16;

/// The labels of a name, each as its byte sequence.
pub open spec fn labels_view(v: Vec<Vec<u8>>) -> Seq<Seq<u8>> {
    Seq::new(v@.len(), |i: int| v@[i]@)
}

/// The encoding of the labels alone: each prefixed by its length byte,
/// without the terminator.
pub open spec fn spec_encoded_labels(labels: Seq<Seq<u8>>) -> Seq<u8>
    decreases labels.len(),
{
    if labels.len() == 0 {
        Seq::<u8>::empty()
    } else {
        seq![labels[0].len() as u8] + labels[0] + spec_encoded_labels(labels.drop_first())
    }
}

/// The full encoding of a name: the labels, then the zero terminator.
pub open spec fn spec_encoded_name(labels: Seq<Seq<u8>>) -> Seq<u8> {
    spec_encoded_labels(labels) + seq![0u8]
}

/// A name that the wire format can carry: every label at most 63 bytes and
/// the whole encoding at most 255 octets.
pub open spec fn valid_name(labels: Seq<Seq<u8>>) -> bool {
    (forall|i: int| 0 <= i < labels.len() ==> #[trigger] labels[i].len() <= 63)
        && spec_encoded_name(labels).len() <= 255
}

/// Appending one label extends the encoding by that label's unit.
proof fn lemma_encoded_labels_push(labels: Seq<Seq<u8>>, label: Seq<u8>)
    ensures
        spec_encoded_labels(labels.push(label)) == spec_encoded_labels(labels) + seq![
            label.len() as u8,
        ] + label,
    decreases labels.len(),
{
    if labels.len() == 0 {
        assert(labels.push(label).drop_first() =~= labels);
        assert(spec_encoded_labels(labels.push(label)) =~= spec_encoded_labels(labels) + seq![
            label.len() as u8,
        ] + label);
    } else {
        assert(labels.push(label).drop_first() =~= labels.drop_first().push(label));
        lemma_encoded_labels_push(labels.drop_first(), label);
        assert(spec_encoded_labels(labels.push(label)) =~= spec_encoded_labels(labels) + seq![
            label.len() as u8,
        ] + label);
    }
}

/// A prefix of the labels never encodes to more bytes than all of them.
proof fn lemma_encoded_labels_prefix_len(labels: Seq<Seq<u8>>, i: int)
    requires
        0 <= i <= labels.len(),
    ensures
        spec_encoded_labels(labels.take(i)).len() <= spec_encoded_labels(labels).len(),
    decreases labels.len() - i,
{
    if i < labels.len() {
        assert(labels.take(i + 1) =~= labels.take(i).push(labels[i]));
        lemma_encoded_labels_push(labels.take(i), labels[i]);
        lemma_encoded_labels_prefix_len(labels, i + 1);
    } else {
        assert(labels.take(i) =~= labels);
    }
}

/// Encodes a name as labels with length prefixes and a zero terminator.
///
/// A label longer than 63 bytes is `InvalidLabelLength`; otherwise an
/// encoding longer than 255 octets is `NameTooLong`; otherwise the encoding
/// is returned.
pub fn encode_name(labels: &Vec<Vec<u8>>) -> (r: Result<Vec<u8>, DNSBodyParseError>)
    ensures
        ({
            let lv = labels_view(*labels);
            &&& (!(forall|i: int| 0 <= i < lv.len() ==> #[trigger] lv[i].len() <= 63)) ==> r
                == Err::<Vec<u8>, DNSBodyParseError>(DNSBodyParseError::InvalidLabelLength)
            &&& ((forall|i: int| 0 <= i < lv.len() ==> #[trigger] lv[i].len() <= 63)
                && spec_encoded_name(lv).len() > 255) ==> r == Err::<Vec<u8>, DNSBodyParseError>(
                DNSBodyParseError::NameTooLong,
            )
            &&& valid_name(lv) ==> (r matches Ok(out) && out@ == spec_encoded_name(lv))
        }),
{
    let ghost lv = labels_view(*labels);
    let mut out: Vec<u8> = Vec::new();
    let mut i: usize = 0;
    while i < labels.len()
        invariant
            lv == labels_view(*labels),
            0 <= i <= labels@.len(),
            out@ == spec_encoded_labels(lv.take(i as int)),
            forall|k: int| 0 <= k < i ==> #[trigger] lv[k].len() <= 63,
        decreases labels@.len() - i,
    {
        let label = &labels[i];
        if label.len() > 63 {
            proof {
                assert(lv[i as int].len() > 63);
            }
            return Err(DNSBodyParseError::InvalidLabelLength);
        }
        out.push(label.len() as u8);
        let mut j: usize = 0;
        while j < label.len()
            invariant
                0 <= j <= label@.len(),
                label == labels@[i as int],
                i < labels@.len(),
                lv == labels_view(*labels),
                out@ == spec_encoded_labels(lv.take(i as int)) + seq![label@.len() as u8]
                    + label@.take(j as int),
            decreases label@.len() - j,
        {
            out.push(label[j]);
            proof {
                assert(label@.take(j + 1) =~= label@.take(j as int).push(label@[j as int]));
                assert(out@ =~= spec_encoded_labels(lv.take(i as int)) + seq![label@.len() as u8]
                    + label@.take(j + 1));
            }
            j += 1;
        }
        proof {
            assert(label@.take(label@.len() as int) =~= label@);
            lemma_encoded_labels_push(lv.take(i as int), lv[i as int]);
            assert(lv.take(i as int).push(lv[i as int]) =~= lv.take(i + 1));
        }
        i += 1;
    }
    proof {
        assert(lv.take(lv.len() as int) =~= lv);
    }
    if out.len() > 254 {
        return Err(DNSBodyParseError::NameTooLong);
    }
    out.push(0u8);
    proof {
        assert(out@ =~= spec_encoded_name(lv));
    }
    Ok(out)
}

/// The labels read starting at `pos`, following at most `chase` compression
/// pointers. Each error is the first one the scan meets: a missing byte is
/// `Truncated`, a length byte between 64 and 191 is `InvalidLabelLength`,
/// and one pointer too many is `CompressionPointerLoop`.
pub open spec fn spec_decode_labels(bytes: Seq<u8>, pos: int, chase: nat) -> Result<
    Seq<Seq<u8>>,
    DNSBodyParseError,
>
    decreases chase, bytes.len() - pos,
{
    if pos < 0 || pos >= bytes.len() {
        Err(DNSBodyParseError::Truncated)
    } else {
        let len = bytes[pos] as int;
        if len == 0 {
            Ok(Seq::<Seq<u8>>::empty())
        } else if len <= 63 {
            if pos + 1 + len > bytes.len() {
                Err(DNSBodyParseError::Truncated)
            } else {
                match spec_decode_labels(bytes, pos + 1 + len, chase) {
                    Ok(rest) => Ok(seq![bytes.subrange(pos + 1, pos + 1 + len)] + rest),
                    Err(e) => Err(e),
                }
            }
        } else if len >= 192 {
            if pos + 1 >= bytes.len() {
                Err(DNSBodyParseError::Truncated)
            } else if chase == 0 {
                Err(DNSBodyParseError::CompressionPointerLoop)
            } else {
                spec_decode_labels(bytes, (len - 192) * 256 + bytes[pos + 1], (chase - 1) as nat)
            }
        } else {
            Err(DNSBodyParseError::InvalidLabelLength)
        }
    }
}

/// Like [`spec_decode_labels`], but also yields the position just past the
/// name in the region where it started: past the terminator, or past the
/// first compression pointer.
pub open spec fn spec_decode_name_at(bytes: Seq<u8>, pos: int, chase: nat) -> Result<
    (Seq<Seq<u8>>, int),
    DNSBodyParseError,
>
    decreases bytes.len() - pos,
{
    if pos < 0 || pos >= bytes.len() {
        Err(DNSBodyParseError::Truncated)
    } else {
        let len = bytes[pos] as int;
        if len == 0 {
            Ok((Seq::<Seq<u8>>::empty(), pos + 1))
        } else if len <= 63 {
            if pos + 1 + len > bytes.len() {
                Err(DNSBodyParseError::Truncated)
            } else {
                match spec_decode_name_at(bytes, pos + 1 + len, chase) {
                    Ok((rest, end)) => Ok(
                        (seq![bytes.subrange(pos + 1, pos + 1 + len)] + rest, end),
                    ),
                    Err(e) => Err(e),
                }
            }
        } else if len >= 192 {
            if pos + 1 >= bytes.len() {
                Err(DNSBodyParseError::Truncated)
            } else if chase == 0 {
                Err(DNSBodyParseError::CompressionPointerLoop)
            } else {
                match spec_decode_labels(
                    bytes,
                    (len - 192) * 256 + bytes[pos + 1],
                    (chase - 1) as nat,
                ) {
                    Ok(rest) => Ok((rest, pos + 2)),
                    Err(e) => Err(e),
                }
            }
        } else {
            Err(DNSBodyParseError::InvalidLabelLength)
        }
    }
}

/// The name decoded at `pos` with the default chase bound, rejected as
/// `NameTooLong` when its own encoding would exceed 255 octets.
pub open spec fn spec_decode_name(bytes: Seq<u8>, pos: int) -> Result<
    (Seq<Seq<u8>>, int),
    DNSBodyParseError,
> {
    match spec_decode_name_at(bytes, pos, MAX_POINTER_CHASE as nat) {
        Ok((labels, end)) => if spec_encoded_name(labels).len() <= 255 {
            Ok((labels, end))
        } else {
            Err(DNSBodyParseError::NameTooLong)
        },
        Err(e) => Err(e),
    }
}

/// Every label that the scan produces fits in its length byte, so is at
/// most 63 bytes.
proof fn lemma_decode_labels_bounded(bytes: Seq<u8>, pos: int, chase: nat)
    ensures
        spec_decode_labels(bytes, pos, chase) matches Ok(labels) ==> forall|i: int|
            0 <= i < labels.len() ==> #[trigger] labels[i].len() <= 63,
    decreases chase, bytes.len() - pos,
{
    if 0 <= pos < bytes.len() {
        let len = bytes[pos] as int;
        if 1 <= len <= 63 && pos + 1 + len <= bytes.len() {
            lemma_decode_labels_bounded(bytes, pos + 1 + len, chase);
        } else if len >= 192 && pos + 1 < bytes.len() && chase > 0 {
            lemma_decode_labels_bounded(
                bytes,
                (len - 192) * 256 + bytes[pos + 1],
                (chase - 1) as nat,
            );
        }
    }
}

/// As [`lemma_decode_labels_bounded`], for the scan that tracks the end.
proof fn lemma_decode_name_at_bounded(bytes: Seq<u8>, pos: int, chase: nat)
    ensures
        spec_decode_name_at(bytes, pos, chase) matches Ok(r) ==> forall|i: int|
            0 <= i < r.0.len() ==> #[trigger] r.0[i].len() <= 63,
    decreases bytes.len() - pos,
{
    if 0 <= pos < bytes.len() {
        let len = bytes[pos] as int;
        if 1 <= len <= 63 && pos + 1 + len <= bytes.len() {
            lemma_decode_name_at_bounded(bytes, pos + 1 + len, chase);
        } else if len >= 192 && pos + 1 < bytes.len() && chase > 0 {
            lemma_decode_labels_bounded(
                bytes,
                (len - 192) * 256 + bytes[pos + 1],
                (chase - 1) as nat,
            );
        }
    }
}

/// The end position the scan reports lies within the buffer.
proof fn lemma_decode_name_at_end_range(bytes: Seq<u8>, pos: int, chase: nat)
    ensures
        spec_decode_name_at(bytes, pos, chase) matches Ok(p) ==> 0 <= p.1 <= bytes.len(),
    decreases bytes.len() - pos,
{
    if 0 <= pos < bytes.len() {
        let len = bytes[pos] as int;
        if 1 <= len <= 63 && pos + 1 + len <= bytes.len() {
            lemma_decode_name_at_end_range(bytes, pos + 1 + len, chase);
        }
    }
}

/// The decoder's end position lies within the buffer.
pub proof fn lemma_decoded_name_end_range(bytes: Seq<u8>, pos: int)
    ensures
        spec_decode_name(bytes, pos) matches Ok(p) ==> 0 <= p.1 <= bytes.len(),
{
    lemma_decode_name_at_end_range(bytes, pos, MAX_POINTER_CHASE as nat);
}

/// A name the decoder accepts is a valid wire name: labels of at most 63
/// bytes whose encoding fits in 255 octets.
pub proof fn lemma_decoded_name_valid(bytes: Seq<u8>, pos: int)
    ensures
        spec_decode_name(bytes, pos) matches Ok(p) ==> valid_name(p.0),
{
    lemma_decode_name_at_bounded(bytes, pos, MAX_POINTER_CHASE as nat);
}

/// Reads the labels at `start`, following at most `chase0` pointers,
/// appending them to whatever `acc` already holds.
#[verifier::loop_isolation(false)]
fn decode_labels_into(bytes: &[u8], start: usize, chase0: u8, acc: &mut Vec<Vec<u8>>) -> (r:
    Result<(), DNSBodyParseError>)
    ensures
        match r {
            Ok(_) => spec_decode_labels(bytes@, start as int, chase0 as nat) is Ok && labels_view(
                *final(acc),
            ) == labels_view(*old(acc)) + spec_decode_labels(
                bytes@,
                start as int,
                chase0 as nat,
            )->Ok_0,
            Err(e) => spec_decode_labels(bytes@, start as int, chase0 as nat) == Err::<
                Seq<Seq<u8>>,
                DNSBodyParseError,
            >(e),
        },
{
    let ghost acc0 = *acc;
    let mut pos = start;
    let mut chase = chase0;
    loop
        invariant
            chase <= chase0,
            ({
                let whole = spec_decode_labels(bytes@, start as int, chase0 as nat);
                let here = spec_decode_labels(bytes@, pos as int, chase as nat);
                match here {
                    Ok(rest) => whole is Ok && labels_view(*acc) + rest == labels_view(acc0)
                        + whole->Ok_0,
                    Err(e) => whole == Err::<Seq<Seq<u8>>, DNSBodyParseError>(e),
                }
            }),
        decreases chase, bytes@.len() - pos,
    {
        if pos >= bytes.len() {
            return Err(DNSBodyParseError::Truncated);
        }
        let len = bytes[pos];
        if len == 0 {
            proof {
                let whole = spec_decode_labels(bytes@, start as int, chase0 as nat);
                let here = spec_decode_labels(bytes@, pos as int, chase as nat);
                assert(here == Ok::<Seq<Seq<u8>>, DNSBodyParseError>(Seq::<Seq<u8>>::empty()));
                assert(labels_view(*acc) + Seq::<Seq<u8>>::empty() =~= labels_view(*acc));
            }
            return Ok(());
        } else if len <= 63 {
            let lenu = len as usize;
            let n = bytes.len();
            if n - pos - 1 < lenu {
                return Err(DNSBodyParseError::Truncated);
            }
            let mut label: Vec<u8> = Vec::new();
            let mut j: usize = 0;
            while j < lenu
                invariant
                    0 <= j <= lenu,
                    n == bytes@.len(),
                    pos + 1 + lenu <= n,
                    label@ == bytes@.subrange(pos + 1, pos + 1 + j),
                decreases lenu - j,
            {
                label.push(bytes[pos + 1 + j]);
                proof {
                    assert(label@ =~= bytes@.subrange(pos + 1, pos + 1 + (j + 1)));
                }
                j += 1;
            }
            let ghost old_acc = *acc;
            acc.push(label);
            proof {
                assert(labels_view(*acc) =~= labels_view(old_acc) + seq![
                    bytes@.subrange(pos as int + 1, pos as int + 1 + len as int),
                ]);
                let rest_after = spec_decode_labels(
                    bytes@,
                    pos as int + 1 + len as int,
                    chase as nat,
                );
                match rest_after {
                    Ok(rest) => {
                        assert(labels_view(old_acc) + (seq![
                            bytes@.subrange(pos as int + 1, pos as int + 1 + len as int),
                        ] + rest) =~= labels_view(*acc) + rest);
                    },
                    Err(_) => {},
                }
            }
            pos = pos + 1 + lenu;
        } else if len >= 192 {
            if pos + 1 >= bytes.len() {
                return Err(DNSBodyParseError::Truncated);
            }
            if chase == 0 {
                return Err(DNSBodyParseError::CompressionPointerLoop);
            }
            let target = ((len - 192) as usize) * 256 + (bytes[pos + 1] as usize);
            pos = target;
            chase -= 1;
        } else {
            return Err(DNSBodyParseError::InvalidLabelLength);
        }
    }
}

/// Decodes the name at `start`: its labels and the position just past it
/// in the region where it started. Malformed or over-long input yields a
/// typed error, never a panic.
#[verifier::loop_isolation(false)]
fn decode_name_region(bytes: &[u8], start: usize) -> (r: Result<
    (Vec<Vec<u8>>, usize),
    DNSBodyParseError,
>)
    ensures
        match r {
            Ok((v, end)) => spec_decode_name_at(bytes@, start as int, MAX_POINTER_CHASE as nat)
                matches Ok(s) && s.0 == labels_view(v) && s.1 == end as int,
            Err(e) => spec_decode_name_at(bytes@, start as int, MAX_POINTER_CHASE as nat) == Err::<
                (Seq<Seq<u8>>, int),
                DNSBodyParseError,
            >(e),
        },
{
    let mut acc: Vec<Vec<u8>> = Vec::new();
    let mut pos = start;
    proof {
        match spec_decode_name_at(bytes@, start as int, MAX_POINTER_CHASE as nat) {
            Ok(p) => {
                assert(labels_view(acc) + p.0 =~= p.0);
            },
            Err(_) => {},
        }
    }
    loop
        invariant
            ({
                let whole = spec_decode_name_at(bytes@, start as int, MAX_POINTER_CHASE as nat);
                let here = spec_decode_name_at(bytes@, pos as int, MAX_POINTER_CHASE as nat);
                match here {
                    Ok(p) => whole == Ok::<(Seq<Seq<u8>>, int), DNSBodyParseError>(
                        (labels_view(acc) + p.0, p.1),
                    ),
                    Err(e) => whole == Err::<(Seq<Seq<u8>>, int), DNSBodyParseError>(e),
                }
            }),
        decreases bytes@.len() - pos,
    {
        if pos >= bytes.len() {
            return Err(DNSBodyParseError::Truncated);
        }
        let len = bytes[pos];
        if len == 0 {
            proof {
                assert(labels_view(acc) + Seq::<Seq<u8>>::empty() =~= labels_view(acc));
            }
            return Ok((acc, pos + 1));
        } else if len <= 63 {
            let lenu = len as usize;
            let n = bytes.len();
            if n - pos - 1 < lenu {
                return Err(DNSBodyParseError::Truncated);
            }
            let mut label: Vec<u8> = Vec::new();
            let mut j: usize = 0;
            while j < lenu
                invariant
                    0 <= j <= lenu,
                    n == bytes@.len(),
                    pos + 1 + lenu <= n,
                    label@ == bytes@.subrange(pos + 1, pos + 1 + j),
                decreases lenu - j,
            {
                label.push(bytes[pos + 1 + j]);
                proof {
                    assert(label@ =~= bytes@.subrange(pos + 1, pos + 1 + (j + 1)));
                }
                j += 1;
            }
            let ghost old_acc = acc;
            acc.push(label);
            proof {
                assert(labels_view(acc) =~= labels_view(old_acc) + seq![
                    bytes@.subrange(pos as int + 1, pos as int + 1 + len as int),
                ]);
                let rest_after = spec_decode_name_at(
                    bytes@,
                    pos as int + 1 + len as int,
                    MAX_POINTER_CHASE as nat,
                );
                match rest_after {
                    Ok(p) => {
                        assert(labels_view(old_acc) + (seq![
                            bytes@.subrange(pos as int + 1, pos as int + 1 + len as int),
                        ] + p.0) =~= labels_view(acc) + p.0);
                    },
                    Err(_) => {},
                }
            }
            pos = pos + 1 + lenu;
        } else if len >= 192 {
            if pos + 1 >= bytes.len() {
                return Err(DNSBodyParseError::Truncated);
            }
            let target = ((len - 192) as usize) * 256 + (bytes[pos + 1] as usize);
            match decode_labels_into(bytes, target, MAX_POINTER_CHASE - 1, &mut acc) {
                Ok(_) => {
                    return Ok((acc, pos + 2));
                },
                Err(e) => {
                    return Err(e);
                },
            }
        } else {
            return Err(DNSBodyParseError::InvalidLabelLength);
        }
    }
}

/// Decodes the name at `start`: its labels and the position just past it
/// in the region where it started. Malformed or over-long input yields a
/// typed error, never a panic.
pub fn decode_name(bytes: &[u8], start: usize) -> (r: Result<
    (Vec<Vec<u8>>, usize),
    DNSBodyParseError,
>)
    ensures
        match r {
            Ok((v, end)) => spec_decode_name(bytes@, start as int) matches Ok(s) && s.0
                == labels_view(v) && s.1 == end as int,
            Err(e) => spec_decode_name(bytes@, start as int) == Err::<
                (Seq<Seq<u8>>, int),
                DNSBodyParseError,
            >(e),
        },
{
    let (v, end) = match decode_name_region(bytes, start) {
        Ok(p) => p,
        Err(e) => {
            return Err(e);
        },
    };
    // The name decoded; reject it if its own plain encoding would not fit
    // in 255 octets.
    proof {
        lemma_decode_name_at_bounded(bytes@, start as int, MAX_POINTER_CHASE as nat);
    }
    let ghost lv = labels_view(v);
    let mut total: usize = 0;
    let mut i: usize = 0;
    while i < v.len() && total <= 255
        invariant
            0 <= i <= v@.len(),
            lv == labels_view(v),
            forall|k: int| 0 <= k < lv.len() ==> #[trigger] lv[k].len() <= 63,
            total == spec_encoded_labels(lv.take(i as int)).len(),
            total <= 255 + 64,
        decreases v@.len() - i,
    {
        proof {
            lemma_encoded_labels_push(lv.take(i as int), lv[i as int]);
            assert(lv.take(i as int).push(lv[i as int]) =~= lv.take(i + 1));
        }
        total = total + 1 + v[i].len();
        i += 1;
    }
    if total > 254 {
        proof {
            if i < v.len() {
                lemma_encoded_labels_prefix_len(lv, i as int);
            } else {
                assert(lv.take(i as int) =~= lv);
            }
        }
        return Err(DNSBodyParseError::NameTooLong);
    }
    proof {
        assert(lv.take(i as int) =~= lv);
    }
    Ok((v, end))
}

} // verus!
