//! Encodings, their byte-order marks, and the matching of leading bytes.

use vstd::prelude::*;

verus! {

/// The number of leading bytes of a file that are compared with the signatures.
pub const PROBE_LEN: usize = 3;

/// The least number of bytes in a signature.
pub const MIN_SIGNATURE_LEN: usize = 2;

/// An encoding that announces itself by a byte-order mark.
#[derive(Clone, Copy, Debug, PartialEq, Eq, Hash, Structural)]
pub enum Encoding {
    Utf8,
    Utf16Le,
    Utf16Be,
}

impl Encoding {
    /// The byte-order mark of the encoding.
    pub open spec fn mark(self) -> Seq<u8> {
        match self {
            Encoding::Utf8 => seq![0xefu8, 0xbbu8, 0xbfu8],
            Encoding::Utf16Le => seq![0xffu8, 0xfeu8],
            Encoding::Utf16Be => seq![0xfeu8, 0xffu8],
        }
    }

    /// The byte-order mark of the encoding, as bytes.
    pub fn signature(self) -> (bytes: Vec<u8>)
        ensures
            bytes@ == self.mark(),
    {
        let mut bytes: Vec<u8> = Vec::new();
        match self {
            Encoding::Utf8 => {
                bytes.push(0xef);
                bytes.push(0xbb);
                bytes.push(0xbf);
            },
            Encoding::Utf16Le => {
                bytes.push(0xff);
                bytes.push(0xfe);
            },
            Encoding::Utf16Be => {
                bytes.push(0xfe);
                bytes.push(0xff);
            },
        }
        assert(bytes@ =~= self.mark());
        bytes
    }
}

/// Whether `signature` stands at the start of `probe`: every byte of the
/// signature equals the byte of the probe at the same place. Bytes of the
/// probe behind the signature's length play no part.
pub open spec fn starts_with(probe: Seq<u8>, signature: Seq<u8>) -> bool {
    signature.is_prefix_of(probe)
}

/// Compares a signature with the start of the probed bytes.
pub fn matches_signature(probe: &[u8], signature: &[u8]) -> (found: bool)
    ensures
        found == starts_with(probe@, signature@),
{
    if signature.len() > probe.len() {
        return false;
    }
    let mut i: usize = 0;
    while i < signature.len()
        invariant
            i <= signature.len() <= probe.len(),
            forall|k: int| 0 <= k < i ==> probe@[k] == signature@[k],
        decreases signature.len() - i,
    {
        if probe[i] != signature[i] {
            assert(probe@.subrange(0, signature@.len() as int)[i as int] != signature@[i as int]);
            return false;
        }
        i += 1;
    }
    assert(signature@ =~= probe@.subrange(0, signature@.len() as int));
    true
}

/// One match of a file's leading bytes: the encoding whose signature stands
/// there, and the number of bytes that the signature takes.
#[derive(Clone, Copy, Debug, PartialEq, Eq, Structural)]
pub struct Match {
    pub encoding: Encoding,
    pub len: usize,
}

/// The signatures to look for, each under its encoding, in the order in which
/// they were entered.
#[derive(Clone, Debug)]
pub struct SignatureTable {
    entries: Vec<(Encoding, Vec<u8>)>,
}

/// The match that an entry of a table gives when its signature stands at the
/// start of a file.
pub open spec fn match_of(entry: (Encoding, Seq<u8>)) -> Match {
    Match { encoding: entry.0, len: entry.1.len() as usize }
}

/// All matches of `probe` against the entries of a table, in the table's
/// order: one for every entry whose signature stands at the start of `probe`.
pub open spec fn matches_of(table: Seq<(Encoding, Seq<u8>)>, probe: Seq<u8>) -> Seq<Match> {
    table.filter(|entry: (Encoding, Seq<u8>)| starts_with(probe, entry.1)).map_values(
        |entry: (Encoding, Seq<u8>)| match_of(entry),
    )
}

/// The table of the three byte-order marks: UTF-8, UTF-16 big-endian,
/// UTF-16 little-endian.
pub open spec fn standard_entries() -> Seq<(Encoding, Seq<u8>)> {
    seq![
        (Encoding::Utf8, Encoding::Utf8.mark()),
        (Encoding::Utf16Be, Encoding::Utf16Be.mark()),
        (Encoding::Utf16Le, Encoding::Utf16Le.mark()),
    ]
}

/// The place of `encoding` among the entries, if it has one.
pub open spec fn position_of(table: Seq<(Encoding, Seq<u8>)>, encoding: Encoding) -> Option<int> {
    if exists|i: int| 0 <= i < table.len() && table[i].0 == encoding {
        Some(choose|i: int| 0 <= i < table.len() && table[i].0 == encoding)
    } else {
        None
    }
}

/// What makes a sequence of entries a table: no encoding stands in it twice,
/// and every signature has between `MIN_SIGNATURE_LEN` and `PROBE_LEN` bytes.
pub open spec fn well_formed(table: Seq<(Encoding, Seq<u8>)>) -> bool {
    &&& forall|i: int, j: int|
        0 <= i < j < table.len() ==> (#[trigger] table[i]).0 != (#[trigger] table[j]).0
    &&& forall|i: int|
        0 <= i < table.len() ==> MIN_SIGNATURE_LEN <= (#[trigger] table[i]).1.len() <= PROBE_LEN
}

impl View for SignatureTable {
    type V = Seq<(Encoding, Seq<u8>)>;

    closed spec fn view(&self) -> Seq<(Encoding, Seq<u8>)> {
        self.entries@.map_values(|entry: (Encoding, Vec<u8>)| (entry.0, entry.1@))
    }
}

impl SignatureTable {
    /// The invariant of the table.
    pub open spec fn wf(&self) -> bool {
        well_formed(self@)
    }

    /// A table without entries.
    pub fn new() -> (table: SignatureTable)
        ensures
            table@ == Seq::<(Encoding, Seq<u8>)>::empty(),
            table.wf(),
    {
        let table = SignatureTable { entries: Vec::new() };
        assert(table@ =~= Seq::<(Encoding, Seq<u8>)>::empty());
        table
    }

    /// The number of entries.
    pub fn len(&self) -> (n: usize)
        ensures
            n == self@.len(),
    {
        self.entries.len()
    }

    /// Enters `bytes` as the signature of `encoding`. A signature of fewer
    /// than `MIN_SIGNATURE_LEN` or more than `PROBE_LEN` bytes is refused and
    /// the table stays as it was. Otherwise the signature takes the place of
    /// the one that the encoding had, or the last place if it had none.
    pub fn insert(&mut self, encoding: Encoding, bytes: Vec<u8>) -> (entered: bool)
        requires
            old(self).wf(),
        ensures
            final(self).wf(),
            entered == (MIN_SIGNATURE_LEN <= bytes@.len() <= PROBE_LEN),
            !entered ==> final(self)@ == old(self)@,
            entered ==> final(self)@ == (match position_of(old(self)@, encoding) {
                Some(i) => old(self)@.update(i, (encoding, bytes@)),
                None => old(self)@.push((encoding, bytes@)),
            }),
    {
        if bytes.len() < MIN_SIGNATURE_LEN || bytes.len() > PROBE_LEN {
            return false;
        }
        let ghost before = self@;
        let mut i: usize = 0;
        while i < self.entries.len()
            invariant
                i <= self.entries.len(),
                self@ == before,
                before == old(self)@,
                well_formed(before),
                MIN_SIGNATURE_LEN <= bytes@.len() <= PROBE_LEN,
                forall|k: int| 0 <= k < i ==> (#[trigger] before[k]).0 != encoding,
            decreases self.entries.len() - i,
        {
            if self.entries[i].0 == encoding {
                proof {
                    assert(before[i as int].0 == encoding);
                    assert(position_of(before, encoding) is Some);
                    let p = position_of(before, encoding)->0;
                    assert(before[p].0 == encoding);
                    assert(p == i) by {
                        if p < i {
                            assert(before[p].0 != encoding);
                        } else if p > i {
                            assert(before[i as int].0 != before[p].0);
                        }
                    }
                }
                self.entries.set(i, (encoding, bytes));
                proof {
                    assert(self@ =~= before.update(i as int, (encoding, bytes@)));
                    lemma_update_keeps_well_formed(before, i as int, bytes@);
                }
                return true;
            }
            i += 1;
        }
        proof {
            assert(position_of(before, encoding) is None) by {
                if exists|k: int| 0 <= k < before.len() && before[k].0 == encoding {
                    let k = choose|k: int| 0 <= k < before.len() && before[k].0 == encoding;
                    assert(before[k].0 != encoding);
                }
            }
        }
        self.entries.push((encoding, bytes));
        proof {
            assert(self@ =~= before.push((encoding, bytes@)));
            lemma_push_keeps_well_formed(before, encoding, bytes@);
        }
        true
    }

    /// The table of the three byte-order marks.
    pub fn standard() -> (table: SignatureTable)
        ensures
            table@ == standard_entries(),
            table.wf(),
    {
        let mut entries: Vec<(Encoding, Vec<u8>)> = Vec::new();
        entries.push((Encoding::Utf8, Encoding::Utf8.signature()));
        entries.push((Encoding::Utf16Be, Encoding::Utf16Be.signature()));
        entries.push((Encoding::Utf16Le, Encoding::Utf16Le.signature()));
        let table = SignatureTable { entries };
        assert(table@ =~= standard_entries());
        table
    }

    /// Compares the leading bytes of a file with every signature of the table
    /// and returns one match for every signature that stands there, in the
    /// table's order.
    pub fn detect(&self, probe: &[u8]) -> (found: Vec<Match>)
        ensures
            found@ == matches_of(self@, probe@),
    {
        let mut found: Vec<Match> = Vec::new();
        let mut i: usize = 0;
        proof {
            reveal(Seq::filter);
            assert(self@.take(0) =~= Seq::<(Encoding, Seq<u8>)>::empty());
            assert(found@ =~= matches_of(self@.take(0), probe@));
        }
        while i < self.entries.len()
            invariant
                i <= self.entries.len(),
                self.entries.len() == self@.len(),
                found@ == matches_of(self@.take(i as int), probe@),
            decreases self.entries.len() - i,
        {
            let hit = matches_signature(probe, self.entries[i].1.as_slice());
            proof {
                lemma_matches_of_push(self@.take(i as int), self@[i as int], probe@);
                assert(self@.take(i as int + 1) =~= self@.take(i as int).push(self@[i as int]));
            }
            if hit {
                found.push(Match { encoding: self.entries[i].0, len: self.entries[i].1.len() });
            }
            i += 1;
        }
        assert(self@.take(i as int) =~= self@);
        found
    }
}

/// A table stays one when the signature of one of its encodings is replaced
/// by another of an accepted length.
pub proof fn lemma_update_keeps_well_formed(
    table: Seq<(Encoding, Seq<u8>)>,
    i: int,
    bytes: Seq<u8>,
)
    requires
        well_formed(table),
        0 <= i < table.len(),
        MIN_SIGNATURE_LEN <= bytes.len() <= PROBE_LEN,
    ensures
        well_formed(table.update(i, (table[i].0, bytes))),
{
    let after = table.update(i, (table[i].0, bytes));
    assert forall|a: int, b: int| 0 <= a < b < after.len() implies (#[trigger] after[a]).0 != (
    #[trigger] after[b]).0 by {
        assert(table[a].0 != table[b].0);
    }
    assert forall|a: int| 0 <= a < after.len() implies MIN_SIGNATURE_LEN <= (
    #[trigger] after[a]).1.len() <= PROBE_LEN by {
        if a != i {
            assert(MIN_SIGNATURE_LEN <= table[a].1.len() <= PROBE_LEN);
        }
    }
}

/// A table stays one when a signature of an accepted length is added for an
/// encoding that it does not hold yet.
pub proof fn lemma_push_keeps_well_formed(
    table: Seq<(Encoding, Seq<u8>)>,
    encoding: Encoding,
    bytes: Seq<u8>,
)
    requires
        well_formed(table),
        position_of(table, encoding) is None,
        MIN_SIGNATURE_LEN <= bytes.len() <= PROBE_LEN,
    ensures
        well_formed(table.push((encoding, bytes))),
{
    let after = table.push((encoding, bytes));
    assert forall|a: int, b: int| 0 <= a < b < after.len() implies (#[trigger] after[a]).0 != (
    #[trigger] after[b]).0 by {
        if b < table.len() {
            assert(table[a].0 != table[b].0);
        } else {
            assert(table[a].0 != encoding);
        }
    }
    assert forall|a: int| 0 <= a < after.len() implies MIN_SIGNATURE_LEN <= (
    #[trigger] after[a]).1.len() <= PROBE_LEN by {
        if a < table.len() {
            assert(MIN_SIGNATURE_LEN <= table[a].1.len() <= PROBE_LEN);
        }
    }
}

/// The match whose signature is removed when a file has several: the longest
/// one and, among several of that length, the first. Stated of a sequence
/// that is not empty.
pub open spec fn longest_first(found: Seq<Match>) -> Match
    recommends
        found.len() > 0,
    decreases found.len(),
{
    if found.len() <= 1 {
        found[0]
    } else {
        let best = longest_first(found.drop_last());
        if found.last().len > best.len {
            found.last()
        } else {
            best
        }
    }
}

/// Picks the match whose signature is to be removed, if there is any match.
pub fn strip_choice(found: &Vec<Match>) -> (choice: Option<Match>)
    ensures
        found@.len() == 0 ==> choice is None,
        found@.len() > 0 ==> choice == Some(longest_first(found@)),
{
    if found.len() == 0 {
        return None;
    }
    let mut best: Match = found[0];
    let mut i: usize = 1;
    assert(found@.take(1).len() == 1 && found@.take(1)[0] == found@[0]);
    while i < found.len()
        invariant
            1 <= i <= found.len(),
            best == longest_first(found@.take(i as int)),
        decreases found.len() - i,
    {
        proof {
            assert(found@.take(i as int + 1).drop_last() =~= found@.take(i as int));
            assert(found@.take(i as int + 1).last() == found@[i as int]);
        }
        if found[i].len > best.len {
            best = found[i];
        }
        i += 1;
    }
    assert(found@.take(i as int) =~= found@);
    Some(best)
}

/// Whether the match at place `k` is the longest of `found` and the first of
/// that length.
pub open spec fn is_longest_first(found: Seq<Match>, k: int) -> bool {
    &&& 0 <= k < found.len()
    &&& forall|j: int| 0 <= j < found.len() ==> (#[trigger] found[j]).len <= found[k].len
    &&& forall|j: int| 0 <= j < k ==> (#[trigger] found[j]).len < found[k].len
}

/// The chosen match is one of the matches, none is longer, and none before it
/// is as long. The place of that match is returned.
pub proof fn lemma_longest_first(found: Seq<Match>) -> (k: int)
    requires
        found.len() > 0,
    ensures
        is_longest_first(found, k),
        found[k] == longest_first(found),
    decreases found.len(),
{
    if found.len() <= 1 {
        0
    } else {
        let shorter = found.drop_last();
        let k0 = lemma_longest_first(shorter);
        let last = found.len() - 1;
        assert(forall|j: int| 0 <= j < last ==> found[j] == shorter[j]);
        if found.last().len > shorter[k0].len {
            last
        } else {
            k0
        }
    }
}

/// Matching against a table with one more entry: the matches of the shorter
/// table, followed by the match of the new entry if its signature stands at
/// the start of `probe`.
pub proof fn lemma_matches_of_push(
    table: Seq<(Encoding, Seq<u8>)>,
    entry: (Encoding, Seq<u8>),
    probe: Seq<u8>,
)
    ensures
        matches_of(table.push(entry), probe) == if starts_with(probe, entry.1) {
            matches_of(table, probe).push(match_of(entry))
        } else {
            matches_of(table, probe)
        },
{
    reveal(Seq::filter);
    let pred = |e: (Encoding, Seq<u8>)| starts_with(probe, e.1);
    let longer = table.push(entry);
    assert(longer.drop_last() =~= table);
    assert(longer.last() == entry);
    if starts_with(probe, entry.1) {
        assert(longer.filter(pred) == table.filter(pred).push(entry));
        assert(matches_of(longer, probe) =~= matches_of(table, probe).push(match_of(entry)));
    } else {
        assert(longer.filter(pred) == table.filter(pred));
    }
}

/// Matching against the table of the three byte-order marks, written out.
pub proof fn lemma_standard_matches(probe: Seq<u8>)
    ensures
        matches_of(standard_entries(), probe) == matches_of(
            Seq::<(Encoding, Seq<u8>)>::empty(),
            probe,
        ) + (if starts_with(probe, Encoding::Utf8.mark()) {
            seq![Match { encoding: Encoding::Utf8, len: 3 }]
        } else {
            Seq::empty()
        }) + (if starts_with(probe, Encoding::Utf16Be.mark()) {
            seq![Match { encoding: Encoding::Utf16Be, len: 2 }]
        } else {
            Seq::empty()
        }) + (if starts_with(probe, Encoding::Utf16Le.mark()) {
            seq![Match { encoding: Encoding::Utf16Le, len: 2 }]
        } else {
            Seq::empty()
        }),
        matches_of(Seq::<(Encoding, Seq<u8>)>::empty(), probe) == Seq::<Match>::empty(),
{
    reveal(Seq::filter);
    let none = Seq::<(Encoding, Seq<u8>)>::empty();
    let utf8 = (Encoding::Utf8, Encoding::Utf8.mark());
    let utf16be = (Encoding::Utf16Be, Encoding::Utf16Be.mark());
    let utf16le = (Encoding::Utf16Le, Encoding::Utf16Le.mark());
    assert(matches_of(none, probe) =~= Seq::<Match>::empty());
    lemma_matches_of_push(none, utf8, probe);
    lemma_matches_of_push(none.push(utf8), utf16be, probe);
    lemma_matches_of_push(none.push(utf8).push(utf16be), utf16le, probe);
    assert(none.push(utf8).push(utf16be).push(utf16le) =~= standard_entries());
    assert(matches_of(standard_entries(), probe) =~= matches_of(none, probe) + (if starts_with(
        probe,
        Encoding::Utf8.mark(),
    ) {
        seq![Match { encoding: Encoding::Utf8, len: 3 }]
    } else {
        Seq::empty()
    }) + (if starts_with(probe, Encoding::Utf16Be.mark()) {
        seq![Match { encoding: Encoding::Utf16Be, len: 2 }]
    } else {
        Seq::empty()
    }) + (if starts_with(probe, Encoding::Utf16Le.mark()) {
        seq![Match { encoding: Encoding::Utf16Le, len: 2 }]
    } else {
        Seq::empty()
    }));
}

/// No two of the three byte-order marks stand at the start of the same
/// bytes: the first byte tells them apart.
pub proof fn lemma_marks_exclude_each_other(probe: Seq<u8>, one: Encoding, other: Encoding)
    requires
        starts_with(probe, one.mark()),
        starts_with(probe, other.mark()),
    ensures
        one == other,
{
    assert(probe.subrange(0, one.mark().len() as int)[0] == one.mark()[0]);
    assert(probe.subrange(0, other.mark().len() as int)[0] == other.mark()[0]);
}

/// Bytes that start with `EF BB BF` match UTF-8 in the table of the three
/// byte-order marks, and nothing else, whatever follows them.
pub proof fn lemma_utf8_mark_detected(probe: Seq<u8>)
    requires
        probe.len() >= 3,
        probe[0] == 0xef,
        probe[1] == 0xbb,
        probe[2] == 0xbf,
    ensures
        matches_of(standard_entries(), probe) == seq![Match { encoding: Encoding::Utf8, len: 3 }],
{
    assert(probe.subrange(0, 3) =~= Encoding::Utf8.mark());
    lemma_standard_matches(probe);
    if starts_with(probe, Encoding::Utf16Be.mark()) {
        lemma_marks_exclude_each_other(probe, Encoding::Utf8, Encoding::Utf16Be);
    }
    if starts_with(probe, Encoding::Utf16Le.mark()) {
        lemma_marks_exclude_each_other(probe, Encoding::Utf8, Encoding::Utf16Le);
    }
    assert(matches_of(standard_entries(), probe) =~= seq![
        Match { encoding: Encoding::Utf8, len: 3 },
    ]);
}

/// Bytes that start with `FF FE` match UTF-16 little-endian in the table of
/// the three byte-order marks, and nothing else.
pub proof fn lemma_utf16le_mark_detected(probe: Seq<u8>)
    requires
        probe.len() >= 2,
        probe[0] == 0xff,
        probe[1] == 0xfe,
    ensures
        matches_of(standard_entries(), probe) == seq![
            Match { encoding: Encoding::Utf16Le, len: 2 },
        ],
{
    assert(probe.subrange(0, 2) =~= Encoding::Utf16Le.mark());
    lemma_standard_matches(probe);
    if starts_with(probe, Encoding::Utf8.mark()) {
        lemma_marks_exclude_each_other(probe, Encoding::Utf16Le, Encoding::Utf8);
    }
    if starts_with(probe, Encoding::Utf16Be.mark()) {
        lemma_marks_exclude_each_other(probe, Encoding::Utf16Le, Encoding::Utf16Be);
    }
    assert(matches_of(standard_entries(), probe) =~= seq![
        Match { encoding: Encoding::Utf16Le, len: 2 },
    ]);
}

/// Bytes that start with `FE FF` match UTF-16 big-endian in the table of the
/// three byte-order marks, and nothing else.
pub proof fn lemma_utf16be_mark_detected(probe: Seq<u8>)
    requires
        probe.len() >= 2,
        probe[0] == 0xfe,
        probe[1] == 0xff,
    ensures
        matches_of(standard_entries(), probe) == seq![
            Match { encoding: Encoding::Utf16Be, len: 2 },
        ],
{
    assert(probe.subrange(0, 2) =~= Encoding::Utf16Be.mark());
    lemma_standard_matches(probe);
    if starts_with(probe, Encoding::Utf8.mark()) {
        lemma_marks_exclude_each_other(probe, Encoding::Utf16Be, Encoding::Utf8);
    }
    if starts_with(probe, Encoding::Utf16Le.mark()) {
        lemma_marks_exclude_each_other(probe, Encoding::Utf16Be, Encoding::Utf16Le);
    }
    assert(matches_of(standard_entries(), probe) =~= seq![
        Match { encoding: Encoding::Utf16Be, len: 2 },
    ]);
}

/// Every match against a table comes from an entry of the table whose
/// signature stands at the start of the bytes.
pub proof fn lemma_match_has_entry(table: Seq<(Encoding, Seq<u8>)>, probe: Seq<u8>, k: int)
    requires
        0 <= k < matches_of(table, probe).len(),
    ensures
        exists|i: int|
            0 <= i < table.len() && starts_with(probe, (#[trigger] table[i]).1) && matches_of(
                table,
                probe,
            )[k] == match_of(table[i]),
{
    let pred = |entry: (Encoding, Seq<u8>)| starts_with(probe, entry.1);
    let kept = table.filter(pred);
    table.lemma_filter_pred(pred, k);
    assert(pred(kept[k]));
    table.lemma_filter_contains_rev(pred, kept[k]);
    let i = choose|i: int| 0 <= i < table.len() && table[i] == kept[k];
    assert(starts_with(probe, table[i].1));
    assert(matches_of(table, probe)[k] == match_of(table[i]));
}

} // verus!
