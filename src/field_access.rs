//! Field lookup over a frame's payload, and ordered access to the entries of
//! repeating groups.

use crate::datatypes::{parse_digits_in, unsigned_decoding, FixFieldValue, IntError};
use crate::digits::{all_digits, decimal_digits, digits_value, is_digit, lemma_decimal_digits_shape};
use crate::encoder::field_bytes;
use vstd::prelude::*;

verus! {

/// A FIX repeating group: a sequence of entries in wire order.
pub trait RepeatingGroup: Sized {
    type Entry: View;

    /// The number of entries.
    spec fn spec_len(&self) -> nat;

    /// The `i`-th entry.
    spec fn spec_entry(&self, i: int) -> <Self::Entry as View>::V;

    fn len(&self) -> (r: usize)
        ensures
            r == self.spec_len(),
    ;

    /// The `i`-th entry; `i` must be in range.
    fn entry(&self, i: usize) -> (r: Self::Entry)
        requires
            i < self.spec_len(),
        ensures
            r@ == self.spec_entry(i as int),
    ;

    /// An iterator over all entries, in wire order.
    fn entries(&self) -> (r: Entries<'_, Self>)
        ensures
            r.group() == *self,
            r.front() == 0,
            r.back() == self.spec_len(),
    {
        Entries { group: self, i: 0, max_i_plus_one: self.len() }
    }
}

/// The entries of `group` from `front` up to (not including) `back`.
pub open spec fn entries_between<G: RepeatingGroup>(group: G, front: int, back: int) -> Seq<
    <G::Entry as View>::V,
> {
    Seq::new((back - front) as nat, |k: int| group.spec_entry(front + k))
}

/// Walking the entries from `front` to `back` forward visits them in wire
/// order, one front step drops the first, one back step drops the last, and
/// walking backward visits the same entries in reverse.
pub proof fn lemma_entries_order<G: RepeatingGroup>(group: G, front: int, back: int)
    requires
        0 <= front <= back,
    ensures
        forall|k: int|
            0 <= k < back - front ==> #[trigger] entries_between(group, front, back)[k]
                == group.spec_entry(front + k),
        front < back ==> entries_between(group, front, back).drop_first() == entries_between(
            group,
            front + 1,
            back,
        ),
        front < back ==> entries_between(group, front, back).drop_last() == entries_between(
            group,
            front,
            back - 1,
        ),
        forall|k: int|
            0 <= k < back - front ==> #[trigger] entries_between(group, front, back).reverse()[k]
                == group.spec_entry(back - 1 - k),
{
    if front < back {
        assert(entries_between(group, front, back).drop_first() =~= entries_between(
            group,
            front + 1,
            back,
        ));
        assert(entries_between(group, front, back).drop_last() =~= entries_between(
            group,
            front,
            back - 1,
        ));
    }
}

/// A double-ended, exact-size iterator over the entries of a group.
#[derive(Debug)]
pub struct Entries<'a, G> {
    group: &'a G,
    i: usize,
    max_i_plus_one: usize,
}

impl<'a, G> Entries<'a, G> {
    /// How many entries the front has given.
    pub closed spec fn front(&self) -> int {
        self.i as int
    }

    /// The number of entries minus how many the back has given.
    pub closed spec fn back(&self) -> int {
        self.max_i_plus_one as int
    }

    /// The group iterated over.
    pub closed spec fn group(&self) -> G {
        *self.group
    }
}

impl<'a, G: RepeatingGroup> Entries<'a, G> {
    /// The entries not yet visited, in wire order.
    pub closed spec fn remaining(&self) -> Seq<<G::Entry as View>::V> {
        entries_between(*self.group, self.i as int, self.max_i_plus_one as int)
    }

    /// The cursors lie in the group, the front one not past the back one.
    pub open spec fn wf(&self) -> bool {
        0 <= self.front() <= self.back() <= self.group().spec_len()
    }

    /// All entries of `group`, from the first.
    pub fn new(group: &'a G) -> (r: Self)
        ensures
            r.wf(),
            r.remaining() == entries_between(*group, 0, group.spec_len() as int),
            r.group() == *group,
            r.front() == 0,
            r.back() == group.spec_len(),
    {
        Entries { group, i: 0, max_i_plus_one: group.len() }
    }

    /// The next entry from the front; `None` for ever once all are visited.
    pub fn next(&mut self) -> (r: Option<G::Entry>)
        requires
            old(self).wf(),
        ensures
            final(self).wf(),
            old(self).remaining().len() == 0 ==> r is None && final(self).remaining()
                == old(self).remaining(),
            old(self).remaining().len() > 0 ==> (r matches Some(e) && e@ == old(
                self,
            ).remaining()[0]) && final(self).remaining() == old(self).remaining().drop_first(),
            final(self).group() == old(self).group(),
            final(self).back() == old(self).back(),
            final(self).front() == if r is Some {
                old(self).front() + 1
            } else {
                old(self).front()
            },
    {
        if self.i == self.max_i_plus_one {
            None
        } else {
            let entry = self.group.entry(self.i);
            self.i += 1;
            assert(self.remaining() =~= old(self).remaining().drop_first());
            Some(entry)
        }
    }

    /// The next entry from the back; never one that the front has given.
    pub fn next_back(&mut self) -> (r: Option<G::Entry>)
        requires
            old(self).wf(),
        ensures
            final(self).wf(),
            old(self).remaining().len() == 0 ==> r is None && final(self).remaining()
                == old(self).remaining(),
            old(self).remaining().len() > 0 ==> (r matches Some(e) && e@ == old(
                self,
            ).remaining().last()) && final(self).remaining() == old(self).remaining().drop_last(),
            final(self).group() == old(self).group(),
            final(self).front() == old(self).front(),
            final(self).back() == if r is Some {
                old(self).back() - 1
            } else {
                old(self).back()
            },
    {
        if self.i == self.max_i_plus_one {
            None
        } else {
            self.max_i_plus_one -= 1;
            let entry = self.group.entry(self.max_i_plus_one);
            assert(self.remaining() =~= old(self).remaining().drop_last());
            Some(entry)
        }
    }

    /// The entries not yet visited are those between the two cursors.
    pub proof fn lemma_remaining(&self)
        ensures
            self.remaining() == entries_between(self.group(), self.front(), self.back()),
    {
    }

    /// After `a` entries from the front and `b` from the back of a group of
    /// `n`, `n - a - b` remain; the next from the front is `entry(a)`, the
    /// next from the back is `entry(n - 1 - b)`; and once none remain, both
    /// ends give `None` (see `next` and `next_back`).
    pub proof fn lemma_iteration_law(&self, a: int, b: int)
        requires
            self.wf(),
            self.front() == a,
            self.back() == self.group().spec_len() - b,
        ensures
            self.remaining().len() == self.group().spec_len() - a - b,
            a + b < self.group().spec_len() ==> self.remaining()[0] == self.group().spec_entry(a)
                && self.remaining().last() == self.group().spec_entry(
                self.group().spec_len() - 1 - b,
            ),
    {
    }

    /// Exactly how many entries remain.
    pub fn size_hint(&self) -> (r: (usize, Option<usize>))
        requires
            self.wf(),
        ensures
            r.0 == self.remaining().len(),
            r.1 == Some(self.remaining().len() as usize),
    {
        let n = self.max_i_plus_one - self.i;
        (n, Some(n))
    }

    /// How many entries remain.
    pub fn len(&self) -> (r: usize)
        requires
            self.wf(),
        ensures
            r == self.remaining().len(),
    {
        self.max_i_plus_one - self.i
    }
}

/// The position of the first `b` in `s`, or -1.
pub open spec fn first_index(s: Seq<u8>, b: u8) -> int
    decreases s.len(),
{
    if s.len() == 0 {
        -1
    } else if s[0] == b {
        0
    } else {
        let k = first_index(s.drop_first(), b);
        if k < 0 {
            -1
        } else {
            k + 1
        }
    }
}

/// A tag written canonically: digits, no leading zero, at most 65535.
pub open spec fn canonical_tag(t: Seq<u8>) -> bool {
    &&& t.len() > 0
    &&& all_digits(t)
    &&& t[0] != 48u8
    &&& digits_value(t) <= 65535
}

/// One field: its tag and its value.
pub type FieldModel = (u16, Seq<u8>);

/// The fields of `s`, a run of `<tag>=<value><sep>` records; `None` unless
/// every tag is canonical and every record is closed by a separator.
pub open spec fn parse_fields(s: Seq<u8>, sep: u8) -> Option<Seq<FieldModel>>
    decreases s.len(),
{
    if s.len() == 0 {
        Some(Seq::empty())
    } else {
        let e = first_index(s, 61u8);
        if e <= 0 || e >= s.len() || !canonical_tag(s.take(e)) {
            None
        } else {
            let rest = s.skip(e + 1);
            let p = first_index(rest, sep);
            if p < 0 || p >= rest.len() {
                None
            } else {
                match parse_fields(rest.skip(p + 1), sep) {
                    None => None,
                    Some(tail) => Some(
                        seq![(digits_value(s.take(e)) as u16, rest.take(p))] + tail,
                    ),
                }
            }
        }
    }
}

/// The value of the first field tagged `tag`, if any.
pub open spec fn first_value(fields: Seq<FieldModel>, tag: u16) -> Option<Seq<u8>>
    decreases fields.len(),
{
    if fields.len() == 0 {
        None
    } else if fields[0].0 == tag {
        Some(fields[0].1)
    } else {
        first_value(fields.drop_first(), tag)
    }
}

/// Scanning `s` from `from`, the first `b` is at `found` (or there is none,
/// when `found` is the end).
proof fn lemma_first_index_at(s: Seq<u8>, from: int, found: int, b: u8)
    requires
        0 <= from <= found <= s.len(),
        forall|j: int| from <= j < found ==> s[j] != b,
        found < s.len() ==> s[found] == b,
    ensures
        first_index(s.skip(from), b) == if found < s.len() {
            found - from
        } else {
            -1
        },
    decreases found - from,
{
    let t = s.skip(from);
    if from < found {
        assert(t.drop_first() == s.skip(from + 1));
        lemma_first_index_at(s, from + 1, found, b);
    } else if found == s.len() {
        assert(t.len() == 0);
    }
}

/// The position of the first `b` in `data` from `from` on, or its length.
fn find_byte(data: &[u8], from: usize, b: u8) -> (r: usize)
    requires
        from <= data@.len(),
    ensures
        from <= r <= data@.len(),
        forall|j: int| from <= j < r ==> data@[j] != b,
        r < data@.len() ==> data@[r as int] == b,
{
    let mut i = from;
    while i < data.len() && data[i] != b
        invariant
            from <= i <= data@.len(),
            forall|j: int| from <= j < i ==> data@[j] != b,
        decreases data@.len() - i,
    {
        i += 1;
    }
    i
}

/// One record `<tag>=<value><sep>` at `pos`: the fields from `pos` on are it,
/// then the fields after it.
proof fn lemma_parse_step(s: Seq<u8>, pos: int, e: int, p: int, sep: u8)
    requires
        0 <= pos < e < p < s.len(),
        forall|j: int| pos <= j < e ==> s[j] != 61u8,
        s[e] == 61u8,
        forall|j: int| e + 1 <= j < p ==> s[j] != sep,
        s[p] == sep,
        canonical_tag(s.subrange(pos, e)),
    ensures
        parse_fields(s.skip(pos), sep) == match parse_fields(s.skip(p + 1), sep) {
            Some(tail) => Some(
                seq![(digits_value(s.subrange(pos, e)) as u16, s.subrange(e + 1, p))] + tail,
            ),
            None => None,
        },
{
    let t = s.skip(pos);
    lemma_first_index_at(s, pos, e, 61u8);
    lemma_first_index_at(s, e + 1, p, sep);
    assert(t.take(e - pos) == s.subrange(pos, e));
    let rest = t.skip(e - pos + 1);
    assert(rest == s.skip(e + 1));
    assert(rest.take(p - e - 1) == s.subrange(e + 1, p));
    assert(rest.skip(p - e) == s.skip(p + 1));
}

/// The fields that `refs` point at in `data`.
pub open spec fn fields_model(data: Seq<u8>, refs: Seq<FieldRef>) -> Seq<FieldModel> {
    Seq::new(
        refs.len(),
        |i: int| (refs[i].tag, data.subrange(refs[i].start as int, refs[i].end as int)),
    )
}

/// Where a field's value lies in the bytes of a [`FieldMap`].
#[derive(Debug, Clone, Copy)]
pub struct FieldRef {
    pub tag: u16,
    pub start: usize,
    pub end: usize,
}

/// The fields of a payload, in wire order, as ranges of its bytes.
#[derive(Debug)]
pub struct FieldMap<'a> {
    data: &'a [u8],
    fields: Vec<FieldRef>,
}

impl<'a> FieldMap<'a> {
    /// The fields, tag and value.
    pub closed spec fn spec_fields(&self) -> Seq<FieldModel> {
        fields_model(self.data@, self.fields@)
    }

    /// Every range lies in the data.
    #[verifier::type_invariant]
    pub closed spec fn wf(&self) -> bool {
        forall|i: int|
            0 <= i < self.fields@.len() ==> #[trigger] self.fields@[i].start
                <= self.fields@[i].end <= self.data@.len()
    }

    /// Splits `data` into its fields.
    pub fn parse(data: &'a [u8], separator: u8) -> (r: Option<FieldMap<'a>>)
        ensures
            match r {
                Some(m) => m.wf() && parse_fields(data@, separator) == Some(m.spec_fields()),
                None => parse_fields(data@, separator) is None,
            },
    {
        let mut fields: Vec<FieldRef> = Vec::new();
        let mut pos: usize = 0;
        let ghost s = data@;
        proof {
            assert(s.skip(0) == s);
            if let Some(tail) = parse_fields(s, separator) {
                assert(fields_model(s, fields@) + tail =~= tail);
            }
        }
        while pos < data.len()
            invariant
                pos <= s.len(),
                s == data@,
                forall|i: int|
                    0 <= i < fields@.len() ==> (#[trigger] fields@[i]).start <= fields@[i].end
                        && fields@[i].end <= pos,
                parse_fields(s, separator) == match parse_fields(s.skip(pos as int), separator) {
                    Some(tail) => Some(fields_model(s, fields@) + tail),
                    None => None,
                },
            decreases s.len() - pos,
        {
            let e = find_byte(data, pos, 61u8);
            if e == data.len() || e == pos {
                proof {
                    lemma_first_index_at(s, pos as int, e as int, 61u8);
                }
                return None;
            }
            let tag = parse_digits_in(data, pos, e);
            if tag.is_none() || data[pos] == 48u8 {
                proof {
                    lemma_first_index_at(s, pos as int, e as int, 61u8);
                    assert(s.skip(pos as int).take(e - pos) == s.subrange(pos as int, e as int));
                }
                return None;
            }
            let tag = tag.unwrap();
            let p = find_byte(data, e + 1, separator);
            if p == data.len() {
                proof {
                    lemma_first_index_at(s, pos as int, e as int, 61u8);
                    lemma_first_index_at(s, e + 1, p as int, separator);
                    assert(s.skip(pos as int).take(e - pos) == s.subrange(pos as int, e as int));
                    assert(s.skip(pos as int).skip(e - pos + 1) == s.skip(e + 1));
                }
                return None;
            }
            proof {
                lemma_parse_step(s, pos as int, e as int, p as int, separator);
            }
            let ghost old_fields = fields@;
            fields.push(FieldRef { tag, start: e + 1, end: p });
            proof {
                assert forall|i: int| 0 <= i < fields@.len() implies #[trigger] fields@[i].start
                    <= fields@[i].end <= p + 1 by {
                    if i < old_fields.len() {
                        assert(fields@[i] == old_fields[i]);
                        assert(old_fields[i].start <= old_fields[i].end <= pos);
                    } else {
                        assert(fields@[i] == FieldRef { tag, start: (e + 1) as usize, end: p });
                    }
                }
                let field = (tag, s.subrange(e + 1, p as int));
                assert(fields_model(s, fields@) =~= fields_model(s, old_fields).push(field));
                if let Some(tail) = parse_fields(s.skip(p + 1), separator) {
                    assert(fields_model(s, old_fields) + (seq![field] + tail) =~= fields_model(
                        s,
                        fields@,
                    ) + tail);
                }
            }
            pos = p + 1;
            assert forall|i: int| 0 <= i < fields@.len() implies #[trigger] fields@[i].start
                <= fields@[i].end <= pos by {
                if i < old_fields.len() {
                    assert(fields@[i] == old_fields[i]);
                    assert(old_fields[i].start <= old_fields[i].end <= e);
                } else {
                    assert(fields@[i] == FieldRef { tag, start: (e + 1) as usize, end: p });
                }
            }
        }
        proof {
            assert(s.skip(pos as int).len() == 0);
            assert(fields_model(s, fields@) + Seq::<FieldModel>::empty() =~= fields_model(
                s,
                fields@,
            ));
        }
        Some(FieldMap { data, fields })
    }
}

/// The position of the first field tagged `tag`, or -1.
pub open spec fn first_tag_index(fields: Seq<FieldModel>, tag: u16) -> int
    decreases fields.len(),
{
    if fields.len() == 0 {
        -1
    } else if fields[0].0 == tag {
        0
    } else {
        let k = first_tag_index(fields.drop_first(), tag);
        if k < 0 {
            -1
        } else {
            k + 1
        }
    }
}

/// Where the group entry whose fields continue at `j` ends: at the first
/// field that is the delimiter again or not a member, or at the end.
pub open spec fn entry_end(fields: Seq<FieldModel>, j: int, delimiter: u16, members: Seq<u16>) -> int
    decreases fields.len() - j,
{
    if j >= fields.len() || j < 0 {
        fields.len() as int
    } else if fields[j].0 == delimiter || !members.contains(fields[j].0) {
        j
    } else {
        entry_end(fields, j + 1, delimiter, members)
    }
}

/// The field ranges of `n` entries starting at `pos`, each opened by the
/// delimiter; `None` if fewer are there.
pub open spec fn group_bounds(
    fields: Seq<FieldModel>,
    pos: int,
    n: nat,
    delimiter: u16,
    members: Seq<u16>,
) -> Option<Seq<(int, int)>>
    decreases n,
{
    if n == 0 {
        Some(Seq::empty())
    } else if 0 <= pos < fields.len() && fields[pos].0 == delimiter {
        let end = entry_end(fields, pos + 1, delimiter, members);
        match group_bounds(fields, end, (n - 1) as nat, delimiter, members) {
            Some(rest) => Some(seq![(pos, end)] + rest),
            None => None,
        }
    } else {
        None
    }
}

/// The entries of the group counted by `count_tag`: `Err(None)` if the count
/// is absent, `Err(Some(e))` if it is unreadable (`Other` also when fewer
/// entries follow than it counts).
pub open spec fn group_entries(
    fields: Seq<FieldModel>,
    count_tag: u16,
    delimiter: u16,
    members: Seq<u16>,
) -> Result<Seq<Seq<FieldModel>>, Option<IntError>> {
    let ci = first_tag_index(fields, count_tag);
    if ci < 0 {
        Err(None)
    } else {
        match unsigned_decoding(fields[ci].1, usize::MAX as nat) {
            Err(e) => Err(Some(e)),
            Ok(n) => match group_bounds(fields, ci + 1, n, delimiter, members) {
                None => Err(Some(IntError::Other)),
                Some(b) => Ok(b.map_values(|r: (int, int)| fields.subrange(r.0, r.1))),
            },
        }
    }
}

/// Typed access to the fields of a message or of a group entry.
pub trait FieldAccess<'a>: Sized {
    type Group;

    /// The value of the field tagged `tag` (the first one, if repeated).
    spec fn spec_raw(&self, tag: u16) -> Option<Seq<u8>>;

    /// What [`FieldAccess::group`] may return.
    spec fn spec_group(
        &self,
        count_tag: u16,
        delimiter: u16,
        members: Seq<u16>,
        r: Result<Self::Group, Option<IntError>>,
    ) -> bool;

    /// The raw bytes of the field tagged `tag`.
    fn fv_raw(&self, tag: u16) -> (r: Option<&'a [u8]>)
        ensures
            match r {
                Some(b) => self.spec_raw(tag) == Some(b@),
                None => self.spec_raw(tag) is None,
            },
    ;

    /// The repeating group counted by `count_tag`, whose entries open with
    /// `delimiter` and hold `members`.
    fn group(&self, count_tag: u16, delimiter: u16, members: &[u16]) -> (r: Result<
        Self::Group,
        Option<IntError>,
    >)
        ensures
            self.spec_group(count_tag, delimiter, members@, r),
    ;

    /// As [`FieldAccess::group`], with an absent count as `None`.
    fn group_opt(&self, count_tag: u16, delimiter: u16, members: &[u16]) -> (r: Option<
        Result<Self::Group, IntError>,
    >)
        ensures
            match r {
                None => self.spec_group(count_tag, delimiter, members@, Err(None)),
                Some(Ok(g)) => self.spec_group(count_tag, delimiter, members@, Ok(g)),
                Some(Err(e)) => self.spec_group(count_tag, delimiter, members@, Err(Some(e))),
            },
    {
        match self.group(count_tag, delimiter, members) {
            Ok(g) => Some(Ok(g)),
            Err(None) => None,
            Err(Some(e)) => Some(Err(e)),
        }
    }

    /// The field tagged `tag`, read strictly: `Err(None)` if absent,
    /// `Err(Some(e))` if unreadable. Since strict reading allows one result
    /// for given bytes (`lemma_decodes_functional`), this is what
    /// `V::deserialize` gives on the field's bytes (the same error, or a value
    /// with the same view).
    fn fv<V: FixFieldValue<'a>>(&self, tag: u16) -> (r: Result<V, Option<V::Error>>)
        ensures
            match self.spec_raw(tag) {
                None => r matches Err(None),
                Some(b) => match r {
                    Ok(v) => V::decodes(b, Ok(v)),
                    Err(Some(e)) => V::decodes(b, Err(e)),
                    Err(None) => false,
                },
            },
    {
        match self.fv_raw(tag) {
            None => Err(None),
            Some(raw) => match V::deserialize(raw) {
                Ok(v) => Ok(v),
                Err(e) => Err(Some(e)),
            },
        }
    }

    /// As [`FieldAccess::fv`], read lossily.
    fn fvl<V: FixFieldValue<'a>>(&self, tag: u16) -> (r: Result<V, Option<V::Error>>)
        ensures
            match self.spec_raw(tag) {
                None => r matches Err(None),
                Some(b) => match r {
                    Ok(v) => V::decodes_lossy(b, Ok(v)),
                    Err(Some(e)) => V::decodes_lossy(b, Err(e)),
                    Err(None) => false,
                },
            },
    {
        match self.fv_raw(tag) {
            None => Err(None),
            Some(raw) => match V::deserialize_lossy(raw) {
                Ok(v) => Ok(v),
                Err(e) => Err(Some(e)),
            },
        }
    }

    /// The field tagged `tag`, read strictly, or `None` if absent.
    fn fv_opt<V: FixFieldValue<'a>>(&self, tag: u16) -> (r: Option<Result<V, V::Error>>)
        ensures
            match self.spec_raw(tag) {
                None => r is None,
                Some(b) => r matches Some(x) && V::decodes(b, x),
            },
    {
        match self.fv_raw(tag) {
            None => None,
            Some(raw) => Some(V::deserialize(raw)),
        }
    }

    /// The field tagged `tag`, read lossily, or `None` if absent.
    fn fvl_opt<V: FixFieldValue<'a>>(&self, tag: u16) -> (r: Option<Result<V, V::Error>>)
        ensures
            match self.spec_raw(tag) {
                None => r is None,
                Some(b) => r matches Some(x) && V::decodes_lossy(b, x),
            },
    {
        match self.fv_raw(tag) {
            None => None,
            Some(raw) => Some(V::deserialize_lossy(raw)),
        }
    }
}

/// Dropping leading fields of other tags does not change the first one.
proof fn lemma_first_value_skip(fields: Seq<FieldModel>, i: int, tag: u16)
    requires
        0 <= i <= fields.len(),
        forall|j: int| 0 <= j < i ==> (#[trigger] fields[j]).0 != tag,
    ensures
        first_value(fields, tag) == first_value(fields.skip(i), tag),
        first_tag_index(fields, tag) == if first_tag_index(fields.skip(i), tag) < 0 {
            -1
        } else {
            first_tag_index(fields.skip(i), tag) + i
        },
    decreases i,
{
    if i > 0 {
        let d = fields.drop_first();
        assert forall|j: int| 0 <= j < i - 1 implies (#[trigger] d[j]).0 != tag by {
            assert(d[j] == fields[j + 1]);
        }
        lemma_first_value_skip(d, i - 1, tag);
        assert(d.skip(i - 1) == fields.skip(i));
        assert(fields[0].0 != tag);
    } else {
        assert(fields.skip(0) == fields);
    }
}

impl<'a> View for FieldMap<'a> {
    type V = Seq<FieldModel>;

    closed spec fn view(&self) -> Seq<FieldModel> {
        self.spec_fields()
    }
}

impl<'a> FieldMap<'a> {
    /// The position of the first field tagged `tag`, if any.
    fn position(&self, tag: u16) -> (r: Option<usize>)
        ensures
            match r {
                Some(i) => first_tag_index(self.spec_fields(), tag) == i && i < self.fields@.len()
                    && self.fields@[i as int].tag == tag && first_value(self.spec_fields(), tag)
                    == Some(self.spec_fields()[i as int].1),
                None => first_tag_index(self.spec_fields(), tag) == -1 && first_value(
                    self.spec_fields(),
                    tag,
                ) is None,
            },
    {
        let ghost f = self.spec_fields();
        let mut i: usize = 0;
        while i < self.fields.len()
            invariant
                i <= self.fields@.len(),
                f == self.spec_fields(),
                forall|j: int| 0 <= j < i ==> (#[trigger] f[j]).0 != tag,
            decreases self.fields@.len() - i,
        {
            if self.fields[i].tag == tag {
                proof {
                    lemma_first_value_skip(f, i as int, tag);
                    assert(f.skip(i as int)[0] == f[i as int]);
                }
                return Some(i);
            }
            i += 1;
        }
        proof {
            lemma_first_value_skip(f, i as int, tag);
        }
        None
    }
}

impl<'a> FieldAccess<'a> for FieldMap<'a> {
    type Group = FieldGroup<'a>;

    open spec fn spec_raw(&self, tag: u16) -> Option<Seq<u8>> {
        first_value(self@, tag)
    }

    open spec fn spec_group(
        &self,
        count_tag: u16,
        delimiter: u16,
        members: Seq<u16>,
        r: Result<FieldGroup<'a>, Option<IntError>>,
    ) -> bool {
        match group_entries(self@, count_tag, delimiter, members) {
            Ok(entries) => r matches Ok(g) && g.spec_entries() == entries,
            Err(e) => r == Err::<FieldGroup<'a>, Option<IntError>>(e),
        }
    }

    fn fv_raw(&self, tag: u16) -> (r: Option<&'a [u8]>) {
        match self.position(tag) {
            None => None,
            Some(i) => {
                proof {
                    use_type_invariant(self);
                }
                let f = self.fields[i];
                let data: &'a [u8] = self.data;
                Some(&data[f.start..f.end])
            },
        }
    }

    fn group(&self, count_tag: u16, delimiter: u16, members: &[u16]) -> (r: Result<
        FieldGroup<'a>,
        Option<IntError>,
    >) {
        proof {
            use_type_invariant(self);
        }
        let ghost f = self.spec_fields();
        let ci = match self.position(count_tag) {
            None => return Err(None),
            Some(i) => i,
        };
        let count = self.fields[ci];
        let data: &'a [u8] = self.data;
        let n = match <usize as FixFieldValue<'a>>::deserialize(&data[count.start..count.end]) {
            Err(e) => return Err(Some(e)),
            Ok(n) => n,
        };
        proof {
            assert(f[ci as int].1 == data@.subrange(count.start as int, count.end as int));
            assert(unsigned_decoding(f[ci as int].1, usize::MAX as nat) == Ok::<nat, IntError>(
                n as nat,
            ));
        }
        let len = self.fields.len();
        let mut bounds: Vec<(usize, usize)> = Vec::new();
        let mut pos: usize = ci + 1;
        let mut k: usize = 0;
        proof {
            if let Some(rest) = group_bounds(f, pos as int, n as nat, delimiter, members@) {
                assert(bounds_model(bounds@) + rest =~= rest);
            }
        }
        while k < n
            invariant
                f == self.spec_fields(),
                len == self.fields@.len(),
                ci + 1 <= pos <= len,
                k <= n,
                first_tag_index(f, count_tag) == ci,
                unsigned_decoding(f[ci as int].1, usize::MAX as nat) == Ok::<nat, IntError>(
                    n as nat,
                ),
                forall|b: int| 0 <= b < bounds@.len() ==> (#[trigger] bounds@[b]).0 <= bounds@[b].1
                    <= len,
                group_bounds(f, ci + 1, n as nat, delimiter, members@) == match group_bounds(
                    f,
                    pos as int,
                    (n - k) as nat,
                    delimiter,
                    members@,
                ) {
                    Some(rest) => Some(bounds_model(bounds@) + rest),
                    None => None,
                },
            decreases n - k,
        {
            if pos >= len || self.fields[pos].tag != delimiter {
                proof {
                    if pos < len {
                        assert(f[pos as int].0 == self.fields@[pos as int].tag);
                    }
                    assert(group_bounds(f, pos as int, (n - k) as nat, delimiter, members@) is None);
                }
                return Err(Some(IntError::Other));
            }
            let mut end: usize = pos + 1;
            while end < len && self.fields[end].tag != delimiter && is_member(
                members,
                self.fields[end].tag,
            )
                invariant
                    f == self.spec_fields(),
                    len == self.fields@.len(),
                    pos < end <= len,
                    entry_end(f, pos + 1, delimiter, members@) == entry_end(
                        f,
                        end as int,
                        delimiter,
                        members@,
                    ),
                decreases len - end,
            {
                end += 1;
            }
            let ghost old_bounds = bounds@;
            bounds.push((pos, end));
            proof {
                assert(bounds_model(bounds@) =~= bounds_model(old_bounds).push(
                    (pos as int, end as int),
                ));
                if let Some(rest) = group_bounds(
                    f,
                    end as int,
                    (n - k - 1) as nat,
                    delimiter,
                    members@,
                ) {
                    assert(bounds_model(old_bounds) + (seq![(pos as int, end as int)] + rest)
                        =~= bounds_model(bounds@) + rest);
                }
                assert forall|b: int| 0 <= b < bounds@.len() implies (#[trigger] bounds@[b]).0
                    <= bounds@[b].1 <= len by {
                    if b < old_bounds.len() {
                        assert(bounds@[b] == old_bounds[b]);
                    }
                }
            }
            pos = end;
            k += 1;
        }
        proof {
            assert(bounds_model(bounds@) + Seq::<(int, int)>::empty() =~= bounds_model(bounds@));
        }
        let fields = copy_refs(&self.fields, 0, len);
        assert(fields@ =~= self.fields@);
        let g = FieldGroup { data, fields, bounds };
        assert(g.spec_entries() =~= bounds_model(g.bounds@).map_values(
            |r: (int, int)| f.subrange(r.0, r.1),
        ));
        Ok(g)
    }
}

/// The ranges of `bounds` as integers.
pub open spec fn bounds_model(bounds: Seq<(usize, usize)>) -> Seq<(int, int)> {
    bounds.map_values(|b: (usize, usize)| (b.0 as int, b.1 as int))
}

/// Whether `t` is one of `members`.
fn is_member(members: &[u16], t: u16) -> (r: bool)
    ensures
        r == members@.contains(t),
{
    let mut i: usize = 0;
    while i < members.len()
        invariant
            i <= members@.len(),
            forall|j: int| 0 <= j < i ==> members@[j] != t,
        decreases members@.len() - i,
    {
        if members[i] == t {
            return true;
        }
        i += 1;
    }
    false
}

/// A copy of `refs[from..to]`.
fn copy_refs(refs: &Vec<FieldRef>, from: usize, to: usize) -> (r: Vec<FieldRef>)
    requires
        from <= to <= refs@.len(),
    ensures
        r@ == refs@.subrange(from as int, to as int),
{
    let mut r: Vec<FieldRef> = Vec::new();
    let mut i = from;
    while i < to
        invariant
            from <= i <= to,
            to <= refs@.len(),
            r@ == refs@.subrange(from as int, i as int),
        decreases to - i,
    {
        r.push(refs[i]);
        i += 1;
        assert(r@ =~= refs@.subrange(from as int, i as int));
    }
    r
}

/// The entries of a repeating group, as field ranges of the message.
#[derive(Debug)]
pub struct FieldGroup<'a> {
    data: &'a [u8],
    fields: Vec<FieldRef>,
    bounds: Vec<(usize, usize)>,
}

impl<'a> FieldGroup<'a> {
    /// Every range lies in the data, every entry among the fields.
    #[verifier::type_invariant]
    pub closed spec fn wf(&self) -> bool {
        &&& forall|i: int|
            0 <= i < self.fields@.len() ==> (#[trigger] self.fields@[i]).start <= self.fields@[i].end
                && self.fields@[i].end <= self.data@.len()
        &&& forall|b: int|
            0 <= b < self.bounds@.len() ==> (#[trigger] self.bounds@[b]).0 <= self.bounds@[b].1
                && self.bounds@[b].1 <= self.fields@.len()
    }

    /// The fields of each entry.
    pub closed spec fn spec_entries(&self) -> Seq<Seq<FieldModel>> {
        Seq::new(
            self.bounds@.len(),
            |k: int|
                fields_model(self.data@, self.fields@).subrange(
                    self.bounds@[k].0 as int,
                    self.bounds@[k].1 as int,
                ),
        )
    }
}

} // verus!

verus! {

impl<'a> RepeatingGroup for FieldGroup<'a> {
    type Entry = FieldMap<'a>;

    open spec fn spec_len(&self) -> nat {
        self.spec_entries().len()
    }

    open spec fn spec_entry(&self, i: int) -> Seq<FieldModel> {
        self.spec_entries()[i]
    }

    fn len(&self) -> (r: usize) {
        self.bounds.len()
    }

    fn entry(&self, i: usize) -> (r: FieldMap<'a>) {
        proof {
            use_type_invariant(self);
        }
        let (from, to) = self.bounds[i];
        let fields = copy_refs(&self.fields, from, to);
        assert forall|j: int| 0 <= j < fields@.len() implies (#[trigger] fields@[j]).start
            <= fields@[j].end <= self.data@.len() by {
            assert(fields@[j] == self.fields@[from + j]);
        }
        let m = FieldMap { data: self.data, fields };
        assert(m@ =~= self.spec_entries()[i as int]);
        m
    }
}

} // verus!

verus! {

/// The bytes of `fields`, each as `<tag>=<value><sep>`.
pub open spec fn fields_bytes(fields: Seq<FieldModel>, sep: u8) -> Seq<u8>
    decreases fields.len(),
{
    if fields.len() == 0 {
        Seq::empty()
    } else {
        field_bytes(fields[0].0 as nat, fields[0].1, sep) + fields_bytes(fields.drop_first(), sep)
    }
}

/// Fields that can be written and read back: positive tags, and values
/// without the separator.
pub open spec fn writable_fields(fields: Seq<FieldModel>, sep: u8) -> bool {
    forall|i: int|
        0 <= i < fields.len() ==> (#[trigger] fields[i]).0 != 0 && !fields[i].1.contains(sep)
}

/// The first `b` in `a + [b] + c` is right after `a`, when `a` holds none.
proof fn lemma_first_index_concat(a: Seq<u8>, b: u8, c: Seq<u8>)
    requires
        !a.contains(b),
    ensures
        first_index(a + seq![b] + c, b) == a.len(),
    decreases a.len(),
{
    let s = a + seq![b] + c;
    if a.len() > 0 {
        assert(s[0] == a[0]);
        assert(s.drop_first() == a.drop_first() + seq![b] + c);
        assert(!a.drop_first().contains(b)) by {
            if a.drop_first().contains(b) {
                let j = choose|j: int| 0 <= j < a.drop_first().len() && a.drop_first()[j] == b;
                assert(a[j + 1] == b);
            }
        }
        lemma_first_index_concat(a.drop_first(), b, c);
    } else {
        assert(s[0] == b);
    }
}

/// The canonical digits of a positive number do not start with `0`.
proof fn lemma_no_leading_zero(n: nat)
    requires
        n >= 1,
    ensures
        decimal_digits(n)[0] != 48u8,
    decreases n,
{
    if n >= 10 {
        lemma_no_leading_zero(n / 10);
        lemma_decimal_digits_shape(n / 10);
        assert(decimal_digits(n)[0] == decimal_digits(n / 10)[0]);
    }
}

/// Writing fields and splitting the bytes again gives the same fields.
pub proof fn lemma_fields_round_trip(fields: Seq<FieldModel>, sep: u8)
    requires
        sep != 61u8,
        !is_digit(sep),
        writable_fields(fields, sep),
    ensures
        parse_fields(fields_bytes(fields, sep), sep) == Some(fields),
    decreases fields.len(),
{
    if fields.len() == 0 {
        assert(fields =~= Seq::<FieldModel>::empty());
    } else {
        let (tag, value) = fields[0];
        let tail = fields.drop_first();
        assert(writable_fields(tail, sep)) by {
            assert forall|i: int| 0 <= i < tail.len() implies (#[trigger] tail[i]).0 != 0
                && !tail[i].1.contains(sep) by {
                assert(tail[i] == fields[i + 1]);
            }
        }
        lemma_fields_round_trip(tail, sep);
        let digits = decimal_digits(tag as nat);
        let rest_bytes = fields_bytes(tail, sep);
        let s = fields_bytes(fields, sep);
        lemma_decimal_digits_shape(tag as nat);
        lemma_no_leading_zero(tag as nat);
        assert(!digits.contains(61u8)) by {
            if digits.contains(61u8) {
                let j = choose|j: int| 0 <= j < digits.len() && digits[j] == 61u8;
                assert(is_digit(digits[j]));
            }
        }
        assert(s == digits + seq![61u8] + (value + seq![sep] + rest_bytes));
        lemma_first_index_concat(digits, 61u8, value + seq![sep] + rest_bytes);
        let e = digits.len() as int;
        assert(s.take(e) == digits);
        let rest = s.skip(e + 1);
        assert(rest == value + seq![sep] + rest_bytes);
        lemma_first_index_concat(value, sep, rest_bytes);
        assert(rest.take(value.len() as int) == value);
        assert(rest.skip(value.len() as int + 1) == rest_bytes);
        assert(seq![(tag, value)] + tail =~= fields);
    }
}

} // verus!
