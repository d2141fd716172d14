//! Segment file names and the startup recovery scan.
//!
//! A segment file is named `wal<sequence>.log`.  The recovery scan is split
//! from the file system: the caller lists the directory and hands the file
//! names over; the library says which file to read; the caller reads it and
//! hands the bytes back; the library decides the starting sequence number
//! and the recovered entries.

use vstd::prelude::*;

use crate::codec::{decode_entries, spec_decode, WalError};
use crate::entry::{EntryModel, EntryType, WALEntry};
use crate::manager::WALManager;

verus! {

/// The bytes of the name prefix `wal`.
pub open spec fn spec_wal_prefix() -> Seq<u8> {
    seq![119u8, 97u8, 108u8]
}

/// The bytes of the name suffix `.log`.
pub open spec fn spec_log_suffix() -> Seq<u8> {
    seq![46u8, 108u8, 111u8, 103u8]
}

/// The decimal digits of `n`, most significant first; empty for `n <= 0`.
pub open spec fn spec_decimal_digits(n: int) -> Seq<u8>
    decreases n,
{
    if n <= 0 {
        Seq::empty()
    } else {
        spec_decimal_digits(n / 10).push((48 + n % 10) as u8)
    }
}

/// The canonical decimal rendering of a nonnegative number.
pub open spec fn spec_decimal(n: int) -> Seq<u8> {
    if n == 0 {
        seq![48u8]
    } else {
        spec_decimal_digits(n)
    }
}

/// The file name of the segment numbered `sequence`: `wal<sequence>.log`.
pub open spec fn spec_segment_name(sequence: int) -> Seq<u8> {
    spec_wal_prefix() + spec_decimal(sequence) + spec_log_suffix()
}

/// An ASCII decimal digit.
pub open spec fn spec_is_digit(b: u8) -> bool {
    48 <= b <= 57
}

/// Every byte of `s` is a decimal digit.
pub open spec fn spec_all_digits(s: Seq<u8>) -> bool {
    forall|i: int| 0 <= i < s.len() ==> spec_is_digit(#[trigger] s[i])
}

/// The number a digit string stands for (0 for the empty string).
pub open spec fn spec_digits_value(s: Seq<u8>) -> int
    decreases s.len(),
{
    if s.len() == 0 {
        0
    } else {
        spec_digits_value(s.drop_last()) * 10 + (s.last() - 48)
    }
}

/// The sequence number a file name stands for: `wal<digits>.log` parses to
/// the digits' value, anything else to nothing.
pub open spec fn spec_parse_segment_name(name: Seq<u8>) -> Option<int> {
    if name.len() >= 8 && name.take(3) == spec_wal_prefix() && name.skip(name.len() - 4)
        == spec_log_suffix() && spec_all_digits(name.subrange(3, name.len() - 4)) {
        Some(spec_digits_value(name.subrange(3, name.len() - 4)))
    } else {
        None
    }
}

/// A name the recovery scan recognizes as a segment file: it parses, and
/// the parsed number is a representable sequence number.
pub open spec fn is_segment_name(name: Seq<u8>) -> bool {
    spec_parse_segment_name(name) matches Some(n) && n <= usize::MAX
}

/// The parsed sequence number of a name, -1 where it is not a segment name.
pub open spec fn spec_segment_value(name: Seq<u8>) -> int {
    match spec_parse_segment_name(name) {
        Some(v) => v,
        None => -1,
    }
}

/// A digit string's value is never negative.
proof fn lemma_digits_value_nonneg(s: Seq<u8>)
    requires
        spec_all_digits(s),
    ensures
        spec_digits_value(s) >= 0,
    decreases s.len(),
{
    if s.len() > 0 {
        assert(spec_all_digits(s.drop_last())) by {
            assert(forall|i: int|
                0 <= i < s.len() - 1 ==> s.drop_last()[i] == #[trigger] s[i]);
        }
        lemma_digits_value_nonneg(s.drop_last());
    }
}

/// Extending a digit string never shrinks its value.
proof fn lemma_digits_value_take_le(s: Seq<u8>, n: int)
    requires
        spec_all_digits(s),
        0 <= n <= s.len(),
    ensures
        spec_digits_value(s.take(n)) <= spec_digits_value(s),
    decreases s.len() - n,
{
    if n < s.len() {
        lemma_digits_value_take_le(s, n + 1);
        assert(s.take(n + 1).drop_last() =~= s.take(n));
        assert(s.take(n + 1).last() == s[n]);
        assert(spec_all_digits(s.take(n))) by {
            assert(forall|i: int| 0 <= i < n ==> s.take(n)[i] == #[trigger] s[i]);
        }
        lemma_digits_value_nonneg(s.take(n));
        assert(spec_digits_value(s.take(n)) * 10 == spec_digits_value(s.take(n)) + 9
            * spec_digits_value(s.take(n)));
    } else {
        assert(s.take(n) =~= s);
    }
}

/// The digits of a positive number are digits, there is at least one, and
/// their value is the number again.
proof fn lemma_decimal_digits(n: int)
    requires
        n >= 1,
    ensures
        spec_decimal_digits(n).len() >= 1,
        spec_all_digits(spec_decimal_digits(n)),
        spec_digits_value(spec_decimal_digits(n)) == n,
    decreases n,
{
    vstd::arithmetic::div_mod::lemma_fundamental_div_mod(n, 10);
    let s = spec_decimal_digits(n);
    let base = spec_decimal_digits(n / 10);
    assert(s == base.push((48 + n % 10) as u8));
    assert(s.drop_last() =~= base);
    assert(s.last() == (48 + n % 10) as u8);
    assert(0 <= n % 10 < 10);
    assert((48 + n % 10) as u8 as int == 48 + n % 10);
    if n / 10 >= 1 {
        lemma_decimal_digits(n / 10);
    } else {
        assert(base =~= Seq::<u8>::empty());
        assert(spec_digits_value(base) == 0);
    }
    assert(spec_digits_value(s) == spec_digits_value(base) * 10 + (s.last() - 48));
    assert(spec_digits_value(s) == (n / 10) * 10 + n % 10);
    assert(spec_all_digits(s)) by {
        assert forall|i: int| 0 <= i < s.len() implies spec_is_digit(#[trigger] s[i]) by {
            if i < s.len() - 1 {
                assert(s[i] == base[i]);
            }
        }
    }
}

/// Rendering and parsing segment file names are inverses: the name written
/// for a sequence number parses back to that number, and to nothing else.
pub proof fn lemma_parse_segment_name_of_rendered(sequence: int)
    requires
        0 <= sequence <= usize::MAX,
    ensures
        spec_parse_segment_name(spec_segment_name(sequence)) == Some(sequence),
        is_segment_name(spec_segment_name(sequence)),
{
    let digits = spec_decimal(sequence);
    if sequence == 0 {
        assert(digits =~= seq![48u8]);
        assert(digits.len() == 1 && digits.last() == 48);
        assert(digits.drop_last() =~= Seq::<u8>::empty());
        assert(spec_digits_value(Seq::<u8>::empty()) == 0);
        assert(spec_digits_value(digits) == spec_digits_value(digits.drop_last()) * 10 + (
        digits.last() - 48));
        assert(spec_all_digits(digits));
    } else {
        lemma_decimal_digits(sequence);
    }
    let name = spec_segment_name(sequence);
    assert(name.len() == 7 + digits.len());
    assert(name.take(3) =~= spec_wal_prefix());
    assert(name.skip(name.len() - 4) =~= spec_log_suffix());
    assert(name.subrange(3, name.len() - 4) =~= digits);
}

/// Renders the file name of the segment numbered `sequence`.
pub fn segment_file_name(sequence: usize) -> (r: Vec<u8>)
    ensures
        r@ == spec_segment_name(sequence as int),
{
    let mut out: Vec<u8> = Vec::new();
    out.push(119);
    out.push(97);
    out.push(108);
    proof {
        assert(out@ =~= spec_wal_prefix());
    }
    let ghost prefix = out@;
    if sequence == 0 {
        out.push(48);
        proof {
            assert(out@ =~= prefix + spec_decimal(sequence as int));
        }
    } else {
        let mut digits: Vec<u8> = Vec::new();
        let mut m = sequence;
        while m > 0
            invariant
                spec_decimal_digits(sequence as int) == spec_decimal_digits(m as int)
                    + digits@.reverse(),
            decreases m,
        {
            let d = (m % 10) as u8 + 48;
            proof {
                vstd::arithmetic::div_mod::lemma_fundamental_div_mod(m as int, 10);
                assert(spec_decimal_digits(m as int) == spec_decimal_digits(m as int / 10).push(
                    d,
                ));
                assert(digits@.push(d).reverse() =~= seq![d] + digits@.reverse());
                assert(spec_decimal_digits(m as int / 10).push(d) + digits@.reverse()
                    =~= spec_decimal_digits(m as int / 10) + (seq![d] + digits@.reverse()));
            }
            digits.push(d);
            m = m / 10;
        }
        proof {
            assert(spec_decimal_digits(0) =~= Seq::<u8>::empty());
            assert(Seq::<u8>::empty() + digits@.reverse() =~= digits@.reverse());
            assert(spec_decimal(sequence as int) == digits@.reverse());
        }
        let n = digits.len();
        let mut j: usize = 0;
        while j < n
            invariant
                j <= n,
                n == digits@.len(),
                out@ == prefix + digits@.reverse().take(j as int),
            decreases n - j,
        {
            out.push(digits[n - 1 - j]);
            proof {
                assert(digits@.reverse()[j as int] == digits@[n - 1 - j as int]);
                assert(digits@.reverse().take(j as int + 1) =~= digits@.reverse().take(
                    j as int,
                ).push(digits@.reverse()[j as int]));
                assert(out@ =~= prefix + digits@.reverse().take(j as int + 1));
            }
            j = j + 1;
        }
        proof {
            assert(digits@.reverse().take(n as int) =~= digits@.reverse());
        }
    }
    out.push(46);
    out.push(108);
    out.push(111);
    out.push(103);
    proof {
        assert(out@ =~= spec_segment_name(sequence as int));
    }
    out
}

/// Parses a file name as a segment name, yielding its sequence number.
pub fn parse_segment_name(name: &Vec<u8>) -> (r: Option<usize>)
    ensures
        r matches Some(n) ==> spec_parse_segment_name(name@) == Some(n as int),
        r is None ==> !is_segment_name(name@),
{
    let len = name.len();
    if len < 8 {
        return None;
    }
    if name[0] != 119 || name[1] != 97 || name[2] != 108 {
        proof {
            assert(name@.take(3) != spec_wal_prefix()) by {
                if name@.take(3) == spec_wal_prefix() {
                    assert(name@.take(3)[0] == 119 && name@.take(3)[1] == 97 && name@.take(3)[2]
                        == 108);
                }
            }
        }
        return None;
    }
    if name[len - 4] != 46 || name[len - 3] != 108 || name[len - 2] != 111 || name[len - 1]
        != 103 {
        proof {
            let sfx = name@.skip(len as int - 4);
            assert(sfx != spec_log_suffix()) by {
                if sfx == spec_log_suffix() {
                    assert(sfx[0] == 46 && sfx[1] == 108 && sfx[2] == 111 && sfx[3] == 103);
                    assert(sfx[0] == name@[len as int - 4]);
                    assert(sfx[1] == name@[len as int - 3]);
                    assert(sfx[2] == name@[len as int - 2]);
                    assert(sfx[3] == name@[len as int - 1]);
                }
            }
        }
        return None;
    }
    let ghost digits = name@.subrange(3, len as int - 4);
    let mut v: usize = 0;
    let mut i: usize = 3;
    while i < len - 4
        invariant
            3 <= i <= len - 4,
            len == name@.len(),
            8 <= len <= usize::MAX,
            digits == name@.subrange(3, len as int - 4),
            spec_all_digits(digits.take(i as int - 3)),
            v == spec_digits_value(digits.take(i as int - 3)),
        decreases len - i,
    {
        let b = name[i];
        proof {
            assert(digits[i as int - 3] == name@[i as int]);
            assert(digits.take(i as int - 2).drop_last() =~= digits.take(i as int - 3));
            assert(digits.take(i as int - 2).last() == digits[i as int - 3]);
            assert(spec_all_digits(digits.take(i as int - 2)) == (spec_all_digits(digits.take(
                i as int - 3,
            )) && spec_is_digit(digits[i as int - 3]))) by {
                if spec_all_digits(digits.take(i as int - 3)) && spec_is_digit(
                    digits[i as int - 3],
                ) {
                    assert forall|q: int| 0 <= q < i - 2 implies spec_is_digit(
                        #[trigger] digits.take(i as int - 2)[q],
                    ) by {
                        if q < i - 3 {
                            assert(digits.take(i as int - 2)[q] == digits.take(i as int - 3)[q]);
                        }
                    }
                }
            }
        }
        if b < 48 || b > 57 {
            proof {
                assert(!spec_all_digits(digits));
            }
            return None;
        }
        let d = (b - 48) as usize;
        let wide = v as u128 * 10 + d as u128;
        if wide > usize::MAX as u128 {
            proof {
                if spec_all_digits(digits) {
                    lemma_digits_value_take_le(digits, i as int - 2);
                    assert(spec_digits_value(digits.take(i as int - 2)) == v * 10 + d);
                    assert(digits.take(digits.len() as int) =~= digits);
                    assert(!is_segment_name(name@));
                } else {
                    assert(!is_segment_name(name@));
                }
            }
            return None;
        }
        v = v * 10 + d;
        i = i + 1;
    }
    proof {
        assert(digits.take(i as int - 3) =~= digits);
        assert(name@.take(3) =~= spec_wal_prefix());
        assert(name@.skip(len as int - 4) =~= spec_log_suffix());
    }
    Some(v)
}

/// How many of these names the recovery scan recognizes as segment files.
pub open spec fn spec_segment_count(names: Seq<Seq<u8>>) -> int
    decreases names.len(),
{
    if names.len() == 0 {
        0
    } else {
        spec_segment_count(names.drop_last()) + if is_segment_name(names.last()) {
            1int
        } else {
            0int
        }
    }
}

/// The count of segment names lies between zero and the number of names.
pub proof fn lemma_segment_count_bounds(names: Seq<Seq<u8>>)
    ensures
        0 <= spec_segment_count(names) <= names.len(),
    decreases names.len(),
{
    if names.len() > 0 {
        lemma_segment_count_bounds(names.drop_last());
    }
}

/// Scans a directory listing: how many segment files it holds, and the
/// index of the one with the greatest sequence number — the most recent
/// segment, chosen by its parsed number, never by listing order.
pub fn scan_segments(names: &Vec<Vec<u8>>) -> (r: (usize, Option<usize>))
    ensures
        r.0 as int == spec_segment_count(names.deep_view()),
        (r.1 is Some) == (spec_segment_count(names.deep_view()) > 0),
        r.1 matches Some(idx) ==> idx < names@.len() && is_segment_name(
            names.deep_view()[idx as int],
        ) && (forall|j: int|
            0 <= j < names.deep_view().len() && is_segment_name(#[trigger] names.deep_view()[j])
                ==> spec_segment_value(names.deep_view()[j]) <= spec_segment_value(
                names.deep_view()[idx as int],
            )),
{
    let ghost nv = names.deep_view();
    let mut count: usize = 0;
    let mut best: Option<usize> = None;
    let mut best_val: usize = 0;
    let mut i: usize = 0;
    while i < names.len()
        invariant
            i <= names@.len(),
            nv == names.deep_view(),
            nv.len() == names@.len(),
            count as int == spec_segment_count(nv.take(i as int)),
            count <= i,
            (best is Some) == (count > 0),
            best matches Some(bi) ==> bi < i && is_segment_name(nv[bi as int])
                && spec_segment_value(nv[bi as int]) == best_val as int,
            best is Some ==> forall|j: int|
                0 <= j < i && is_segment_name(#[trigger] nv[j]) ==> spec_segment_value(nv[j])
                    <= best_val as int,
            best is None ==> forall|j: int| 0 <= j < i ==> !is_segment_name(#[trigger] nv[j]),
        decreases names@.len() - i,
    {
        proof {
            assert(nv[i as int] =~= names@[i as int]@);
            assert(nv.take(i as int + 1).drop_last() =~= nv.take(i as int));
            assert(nv.take(i as int + 1).last() == nv[i as int]);
        }
        match parse_segment_name(&names[i]) {
            Some(value) => {
                count = count + 1;
                let take_it = match best {
                    None => true,
                    Some(_) => value > best_val,
                };
                if take_it {
                    best = Some(i);
                    best_val = value;
                }
            },
            None => {},
        }
        i = i + 1;
    }
    proof {
        assert(nv.take(i as int) =~= nv);
    }
    (count, best)
}

/// Builds a log manager: the flush threshold (`page_size`, in bytes) and
/// the directory that holds the segment files, each with a default.
pub struct WALBuilder {
    page_size: usize,
    directory: String,
}

/// The mathematical state of a builder.
pub struct BuilderModel {
    pub page_size: int,
    pub directory: Seq<char>,
}

impl View for WALBuilder {
    type V = BuilderModel;

    closed spec fn view(&self) -> BuilderModel {
        BuilderModel { page_size: self.page_size as int, directory: self.directory@ }
    }
}

impl Default for WALBuilder {
    /// A builder with the default threshold of 4096 bytes over the current
    /// directory.
    fn default() -> (r: Self)
        ensures
            r@.page_size == 4096,
            r@.directory == "."@,
    {
        WALBuilder { page_size: 4096, directory: ".".to_owned() }
    }
}

/// The recovery decision over a directory that held `k` segment files
/// whose most recent one held `content`: the sequence number to resume at
/// and the entries recovered from an unsealed segment.
///
/// No segment files: a fresh log, sequence 1, nothing recovered.  The most
/// recent segment undecodable: recovery fails.  Sealed (its last entry is
/// a checkpoint marker): resume one past the count, nothing recovered.
/// Unsealed: resume at the count, its entries are the recovered buffer.
pub open spec fn spec_recovery(k: int, content: Option<Seq<u8>>) -> Option<
    (int, Seq<EntryModel>),
> {
    match content {
        None => Some((1int, Seq::<EntryModel>::empty())),
        Some(c) => match spec_decode(c) {
            None => None,
            Some(es) => if es.len() > 0 && es.last().entry_type == EntryType::Checkpoint {
                Some((k + 1, Seq::<EntryModel>::empty()))
            } else {
                Some((k, es))
            },
        },
    }
}

impl WALManager {
    /// Starts configuring a manager.
    pub fn builder() -> (b: WALBuilder)
        ensures
            b@.page_size == 4096,
            b@.directory == "."@,
    {
        WALBuilder::default()
    }
}

impl WALBuilder {
    /// Sets the flush threshold, in bytes.
    pub fn set_page_size(self, page_size: usize) -> (r: Self)
        ensures
            r@.page_size == page_size as int,
            r@.directory == self@.directory,
    {
        WALBuilder { page_size, directory: self.directory }
    }

    /// Sets the directory that holds the segment files.
    pub fn set_directory(self, directory: String) -> (r: Self)
        ensures
            r@.page_size == self@.page_size,
            r@.directory == directory@,
    {
        WALBuilder { page_size: self.page_size, directory }
    }

    /// The configured directory; the caller lists it for the recovery
    /// scan.
    pub fn directory(&self) -> (r: &String)
        ensures
            r@ == self@.directory,
    {
        &self.directory
    }

    /// The recovery scan's decision.  `names` are the file names found in
    /// the directory; `last_segment` is the content of the segment file
    /// with the greatest sequence number (as `scan_segments` picks it),
    /// present exactly when the directory holds any segment file.
    pub fn load_data(names: &Vec<Vec<u8>>, last_segment: &Option<Vec<u8>>) -> (r: Result<
        (usize, Vec<WALEntry>),
        WalError,
    >)
        requires
            names@.len() < usize::MAX,
            (*last_segment is Some) <==> spec_segment_count(names.deep_view()) > 0,
        ensures
            ({
                let k = spec_segment_count(names.deep_view());
                let c = last_segment.deep_view();
                match r {
                    Ok(p) => spec_recovery(k, c) == Some((p.0 as int, p.1.deep_view())) && p.0
                        >= 1,
                    Err(_) => spec_recovery(k, c) is None,
                }
            }),
    {
        let (count, _) = scan_segments(names);
        proof {
            lemma_segment_count_bounds(names.deep_view());
        }
        match last_segment {
            None => {
                let fresh: Vec<WALEntry> = Vec::new();
                proof {
                    assert(fresh.deep_view() =~= Seq::<EntryModel>::empty());
                }
                Ok((1, fresh))
            },
            Some(content) => {
                let entries = match decode_entries(content) {
                    Ok(es) => es,
                    Err(e) => {
                        proof {
                            assert(content.deep_view() =~= content@);
                        }
                        return Err(e);
                    },
                };
                proof {
                    assert(content.deep_view() =~= content@);
                }
                if entries.len() > 0 && matches!(
                    entries[entries.len() - 1].entry_type,
                    EntryType::Checkpoint
                ) {
                    let fresh: Vec<WALEntry> = Vec::new();
                    proof {
                        assert(fresh.deep_view() =~= Seq::<EntryModel>::empty());
                        assert(entries.deep_view().last() == entries@[entries@.len()
                            - 1].deep_view());
                    }
                    Ok((count + 1, fresh))
                } else {
                    proof {
                        if entries@.len() > 0 {
                            assert(entries.deep_view().last() == entries@[entries@.len()
                                - 1].deep_view());
                        }
                    }
                    Ok((count, entries))
                }
            },
        }
    }

    /// Finalizes the builder into a manager, deciding the resume point
    /// from what the caller read out of the directory (see `load_data`).
    ///
    /// The entries recovered from an unsealed segment are discarded here,
    /// deliberately: a freshly built manager always starts with an empty
    /// buffer, and a caller that wants the recovered entries takes them
    /// from `load_data` itself.
    pub fn build(self, names: &Vec<Vec<u8>>, last_segment: &Option<Vec<u8>>) -> (r: Result<
        WALManager,
        WalError,
    >)
        requires
            names@.len() < usize::MAX,
            (*last_segment is Some) <==> spec_segment_count(names.deep_view()) > 0,
        ensures
            ({
                let k = spec_segment_count(names.deep_view());
                let c = last_segment.deep_view();
                match r {
                    Ok(m) => m.wf() && (spec_recovery(k, c) matches Some(p) && m@.sequence == p.0)
                        && m@.buffered == Seq::<EntryModel>::empty() && m@.page_size
                        == self@.page_size && m@.directory == self@.directory,
                    Err(_) => spec_recovery(k, c) is None,
                }
            }),
    {
        let (sequence, _recovered) = match Self::load_data(names, last_segment) {
            Ok(p) => p,
            Err(e) => {
                return Err(e);
            },
        };
        let fresh: Vec<WALEntry> = Vec::new();
        proof {
            assert(fresh.deep_view() =~= Seq::<EntryModel>::empty());
        }
        Ok(WALManager::from_parts(sequence, self.page_size, fresh, self.directory))
    }
}

} // verus!
