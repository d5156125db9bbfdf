//! Request header fields, kept as an ordered list of (name, value) pairs in which a name
//! may occur several times, as in an HTTP header map.
use vstd::prelude::*;

verus! {

/// A header field as plain values: its name (lower case, as header maps keep it) and its value.
pub type Field = (Seq<char>, Seq<u8>);

/// A byte that may stand in a header value: any byte from 32 up except 127, and tab.
pub open spec fn is_value_byte(b: u8) -> bool {
    (b >= 32 && b != 127) || b == 9
}

pub open spec fn is_valid_value(v: Seq<u8>) -> bool {
    forall|i: int| 0 <= i < v.len() ==> is_value_byte(#[trigger] v[i])
}

/// The fields in order, without those named `name`.
pub open spec fn removed(h: Seq<Field>, name: Seq<char>) -> Seq<Field>
    decreases h.len(),
{
    if h.len() == 0 {
        Seq::empty()
    } else {
        let r = removed(h.drop_last(), name);
        if h.last().0 == name {
            r
        } else {
            r.push(h.last())
        }
    }
}

/// The fields with every field named `name` replaced by one field `(name, value)` at the end.
pub open spec fn inserted(h: Seq<Field>, name: Seq<char>, value: Seq<u8>) -> Seq<Field> {
    removed(h, name).push((name, value))
}

/// The position of the first field named `name`, or -1.
pub open spec fn first_index(h: Seq<Field>, name: Seq<char>) -> int
    decreases h.len(),
{
    if h.len() == 0 {
        -1
    } else {
        let i = first_index(h.drop_last(), name);
        if i >= 0 {
            i
        } else if h.last().0 == name {
            h.len() - 1
        } else {
            -1
        }
    }
}

/// The value of the first field named `name`.
pub open spec fn first_value(h: Seq<Field>, name: Seq<char>) -> Option<Seq<u8>> {
    let i = first_index(h, name);
    if i >= 0 {
        Some(h[i].1)
    } else {
        None
    }
}

/// The fields with the value of the first field named `name`, if any, replaced by `value`.
pub open spec fn replaced_first(h: Seq<Field>, name: Seq<char>, value: Seq<u8>) -> Seq<Field> {
    let i = first_index(h, name);
    if i >= 0 {
        h.update(i, (name, value))
    } else {
        h
    }
}

/// All the values of the fields named `name`, in order.
pub open spec fn values_of(h: Seq<Field>, name: Seq<char>) -> Seq<Seq<u8>>
    decreases h.len(),
{
    if h.len() == 0 {
        Seq::empty()
    } else {
        let r = values_of(h.drop_last(), name);
        if h.last().0 == name {
            r.push(h.last().1)
        } else {
            r
        }
    }
}

pub proof fn lemma_first_index(h: Seq<Field>, name: Seq<char>)
    ensures
        -1 <= first_index(h, name) < h.len(),
        first_index(h, name) >= 0 ==> h[first_index(h, name)].0 == name,
        forall|j: int| 0 <= j < h.len() && (first_index(h, name) < 0 || j < first_index(h, name))
            ==> #[trigger] h[j].0 != name,
    decreases h.len(),
{
    if h.len() > 0 {
        let p = h.drop_last();
        lemma_first_index(p, name);
        assert forall|j: int| 0 <= j < p.len() implies p[j] == h[j] by {}
    }
}

/// A header list whose values could all stand in an HTTP header.
pub struct HeaderField {
    pub name: String,
    pub value: Vec<u8>,
}

pub struct Headers {
    fields: Vec<HeaderField>,
}

pub open spec fn field_view(f: HeaderField) -> Field {
    (f.name@, f.value@)
}

/// A copy of a byte string.
pub fn copy_bytes(v: &[u8]) -> (res: Vec<u8>)
    ensures
        res@ == v@,
{
    let mut res: Vec<u8> = Vec::new();
    append_bytes(&mut res, v);
    proof {
        assert(res@ =~= v@);
    }
    res
}

/// Appends the bytes of `src` to `dst`.
pub fn append_bytes(dst: &mut Vec<u8>, src: &[u8])
    ensures
        final(dst)@ == old(dst)@ + src@,
{
    let mut i: usize = 0;
    while i < src.len()
        invariant
            0 <= i <= src@.len(),
            dst@ == old(dst)@ + src@.take(i as int),
        decreases src@.len() - i,
    {
        dst.push(src[i]);
        i = i + 1;
        proof {
            assert(dst@ =~= old(dst)@ + src@.take(i as int));
        }
    }
    proof {
        assert(src@.take(i as int) =~= src@);
    }
}

impl View for Headers {
    type V = Seq<Field>;

    closed spec fn view(&self) -> Seq<Field> {
        Seq::new(self.fields@.len(), |i: int| field_view(self.fields@[i]))
    }
}

impl Headers {
    /// Every value could stand in an HTTP header.
    pub open spec fn wf(&self) -> bool {
        forall|i: int| 0 <= i < self@.len() ==> is_valid_value(#[trigger] self@[i].1)
    }

    pub fn new() -> (res: Self)
        ensures
            res@ == Seq::<Field>::empty(),
            res.wf(),
    {
        let res = Headers { fields: Vec::new() };
        proof {
            assert(res@ =~= Seq::<Field>::empty());
        }
        res
    }

    /// Adds a field at the end, keeping the fields of the same name that are already there.
    pub fn append(&mut self, name: String, value: Vec<u8>)
        ensures
            final(self)@ == old(self)@.push((name@, value@)),
    {
        self.fields.push(HeaderField { name, value });
        proof {
            assert(self@ =~= old(self)@.push((name@, value@)));
        }
    }

    /// The fields, in order.
    pub fn fields(&self) -> (res: &Vec<HeaderField>)
        ensures
            forall|i: int| 0 <= i < res@.len() ==> field_view(#[trigger] res@[i]) == self@[i],
            res@.len() == self@.len(),
    {
        &self.fields
    }

    /// The position of the first field named `name`.
    fn find_first(&self, name: &String) -> (res: Option<usize>)
        ensures
            res is None <==> first_index(self@, name@) < 0,
            res matches Some(i) ==> i == first_index(self@, name@) && i < self.fields@.len(),
            self@.len() == self.fields@.len(),
    {
        proof {
            lemma_first_index(self@, name@);
        }
        let mut i: usize = 0;
        while i < self.fields.len()
            invariant
                0 <= i <= self@.len(),
                self@.len() == self.fields@.len(),
                -1 <= first_index(self@, name@) < self@.len(),
                first_index(self@, name@) >= 0 ==> self@[first_index(self@, name@)].0 == name@,
                forall|j: int| 0 <= j < self@.len() && (first_index(self@, name@) < 0 || j < first_index(self@, name@))
                    ==> #[trigger] self@[j].0 != name@,
                forall|j: int| 0 <= j < i ==> #[trigger] self@[j].0 != name@,
            decreases self@.len() - i,
        {
            if self.fields[i].name == *name {
                proof {
                    assert(self@[i as int].0 == name@);
                }
                return Some(i);
            }
            proof {
                assert(self@[i as int].0 != name@);
            }
            i = i + 1;
        }
        None
    }

    /// The value of the first field named `name`.
    pub fn get(&self, name: &String) -> (res: Option<Vec<u8>>)
        ensures
            first_value(self@, name@) is None <==> res is None,
            res matches Some(v) ==> first_value(self@, name@) == Some(v@),
    {
        match self.find_first(name) {
            Some(i) => {
                let v = copy_bytes(self.fields[i].value.as_slice());
                proof {
                    assert(self@[i as int] == field_view(self.fields@[i as int]));
                }
                Some(v)
            },
            None => None,
        }
    }

    /// Removes every field named `name`.
    pub fn remove(&mut self, name: &String)
        requires
            old(self).wf(),
        ensures
            final(self)@ == removed(old(self)@, name@),
            final(self).wf(),
    {
        let ghost h = self@;
        let mut kept = Headers::new();
        let mut i: usize = 0;
        proof {
            assert(h.take(0) =~= Seq::<Field>::empty());
        }
        while i < self.fields.len()
            invariant
                self@ == h,
                self.wf(),
                self@.len() == self.fields@.len(),
                0 <= i <= h.len(),
                kept@ == removed(h.take(i as int), name@),
                kept.wf(),
            decreases h.len() - i,
        {
            proof {
                assert(h.take(i + 1).drop_last() =~= h.take(i as int));
                assert(h.take(i + 1).last() == h[i as int]);
                assert(self@[i as int] == field_view(self.fields@[i as int]));
            }
            if self.fields[i].name != *name {
                let f = &self.fields[i];
                let copy = copy_bytes(f.value.as_slice());
                kept.append(f.name.clone(), copy);
            }
            i = i + 1;
        }
        proof {
            assert(h.take(i as int) =~= h);
        }
        *self = kept;
    }

    /// Replaces every field named `name` by one field `(name, value)`.
    pub fn insert(&mut self, name: String, value: Vec<u8>)
        requires
            old(self).wf(),
            is_valid_value(value@),
        ensures
            final(self)@ == inserted(old(self)@, name@, value@),
            final(self).wf(),
    {
        self.remove(&name);
        self.append(name, value);
    }

    /// Replaces the value of the first field named `name`, if there is one.
    pub fn replace_first(&mut self, name: &String, value: Vec<u8>)
        requires
            old(self).wf(),
            is_valid_value(value@),
        ensures
            final(self)@ == replaced_first(old(self)@, name@, value@),
            final(self).wf(),
    {
        match self.find_first(name) {
            Some(i) => {
                proof {
                    lemma_first_index(self@, name@);
                }
                let field = HeaderField { name: name.clone(), value };
                self.fields.set(i, field);
                proof {
                    assert(self@ =~= replaced_first(old(self)@, name@, value@));
                }
            },
            None => {},
        }
    }
}

/// Removing a name leaves no value under it and every other name's values as they were.
pub proof fn lemma_values_removed(h: Seq<Field>, name: Seq<char>, other: Seq<char>)
    ensures
        values_of(removed(h, name), other) == if other == name {
            Seq::<Seq<u8>>::empty()
        } else {
            values_of(h, other)
        },
    decreases h.len(),
{
    if h.len() > 0 {
        lemma_values_removed(h.drop_last(), name, other);
        let r = removed(h.drop_last(), name);
        if h.last().0 != name {
            assert(removed(h, name).drop_last() =~= r);
        }
    }
}

/// Inserting a value under a name leaves exactly that value under the name, and every
/// other name's values as they were: what a header map's `insert` promises.
pub proof fn lemma_values_inserted(h: Seq<Field>, name: Seq<char>, value: Seq<u8>, other: Seq<char>)
    ensures
        values_of(inserted(h, name, value), other) == if other == name {
            seq![value]
        } else {
            values_of(h, other)
        },
{
    lemma_values_removed(h, name, other);
    assert(inserted(h, name, value).drop_last() =~= removed(h, name));
    if other == name {
        assert(Seq::<Seq<u8>>::empty().push(value) =~= seq![value]);
    }
}

/// The first value under a name is the first of all the values under it.
pub proof fn lemma_first_value(h: Seq<Field>, name: Seq<char>)
    ensures
        first_value(h, name) == if values_of(h, name).len() > 0 {
            Some(values_of(h, name)[0])
        } else {
            None::<Seq<u8>>
        },
    decreases h.len(),
{
    if h.len() > 0 {
        let p = h.drop_last();
        lemma_first_value(p, name);
        lemma_first_index(p, name);
        if first_index(p, name) >= 0 {
            assert(h[first_index(p, name)] == p[first_index(p, name)]);
        }
    }
}

/// Removing keeps only fields of other names, in order.
pub proof fn lemma_removed(h: Seq<Field>, name: Seq<char>)
    ensures
        forall|i: int| 0 <= i < removed(h, name).len() ==> #[trigger] removed(h, name)[i].0 != name
            && h.contains(removed(h, name)[i]),
    decreases h.len(),
{
    if h.len() > 0 {
        lemma_removed(h.drop_last(), name);
        let r = removed(h.drop_last(), name);
        assert forall|i: int| 0 <= i < r.len() implies h.contains(r[i]) by {
            let k = choose|k: int| 0 <= k < h.drop_last().len() && h.drop_last()[k] == r[i];
            assert(h[k] == r[i]);
        }
        if h.last().0 != name {
            assert(h[h.len() - 1] == h.last());
        }
    }
}

} // verus!
