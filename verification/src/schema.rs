//! The schema of an index: an immutable mapping between attribute names
//! and 16-bit attribute ids, with per-attribute flags, and a diff between
//! two schemas that the update pipeline interprets.

use vstd::prelude::*;

verus! {

/// Per-attribute flags: whether the attribute is returned to clients,
/// indexed for search, and usable by ranking criteria.
#[derive(Debug, Copy, Clone, PartialEq, Eq, Structural)]
pub struct SchemaProps {
    pub displayed: bool,
    pub indexed: bool,
    pub ranked: bool,
}

/// The property set of an attribute that is only displayed.
pub fn displayed() -> (r: SchemaProps)
    ensures
        r == (SchemaProps { displayed: true, indexed: false, ranked: false }),
{
    SchemaProps { displayed: true, indexed: false, ranked: false }
}

/// The property set of an attribute that is only indexed.
pub fn indexed() -> (r: SchemaProps)
    ensures
        r == (SchemaProps { displayed: false, indexed: true, ranked: false }),
{
    SchemaProps { displayed: false, indexed: true, ranked: false }
}

/// The property set of an attribute that is only ranked.
pub fn ranked() -> (r: SchemaProps)
    ensures
        r == (SchemaProps { displayed: false, indexed: false, ranked: true }),
{
    SchemaProps { displayed: false, indexed: false, ranked: true }
}

impl SchemaProps {
    pub fn is_displayed(self) -> (r: bool)
        ensures
            r == self.displayed,
    {
        self.displayed
    }

    pub fn is_indexed(self) -> (r: bool)
        ensures
            r == self.indexed,
    {
        self.indexed
    }

    pub fn is_ranked(self) -> (r: bool)
        ensures
            r == self.ranked,
    {
        self.ranked
    }

    /// The flag-wise union of two property sets.
    pub fn union(self, other: SchemaProps) -> (r: SchemaProps)
        ensures
            r == (SchemaProps {
                displayed: self.displayed || other.displayed,
                indexed: self.indexed || other.indexed,
                ranked: self.ranked || other.ranked,
            }),
    {
        SchemaProps {
            displayed: self.displayed || other.displayed,
            indexed: self.indexed || other.indexed,
            ranked: self.ranked || other.ranked,
        }
    }
}

/// The id of an attribute, assigned in schema-declaration order.
#[derive(Debug, Copy, Clone, PartialOrd, Ord, PartialEq, Eq, Hash, Structural)]
pub struct SchemaAttr(pub u16);

impl SchemaAttr {
    pub fn new(value: u16) -> (r: SchemaAttr)
        ensures
            r == SchemaAttr(value),
    {
        SchemaAttr(value)
    }

    pub fn min() -> (r: SchemaAttr)
        ensures
            r == SchemaAttr(0u16),
    {
        SchemaAttr(0)
    }

    pub fn max() -> (r: SchemaAttr)
        ensures
            r == SchemaAttr(0xffffu16),
    {
        SchemaAttr(0xffff)
    }

    pub fn next(self) -> (r: Option<SchemaAttr>)
        ensures
            self.0 < 0xffff ==> r == Some(SchemaAttr((self.0 + 1) as u16)),
            self.0 == 0xffff ==> r is None,
    {
        match self.0.checked_add(1) {
            Some(v) => Some(SchemaAttr(v)),
            None => None,
        }
    }

    pub fn prev(self) -> (r: Option<SchemaAttr>)
        ensures
            self.0 > 0 ==> r == Some(SchemaAttr((self.0 - 1) as u16)),
            self.0 == 0 ==> r is None,
    {
        match self.0.checked_sub(1) {
            Some(v) => Some(SchemaAttr(v)),
            None => None,
        }
    }
}

/// Character-wise string comparison, so that contracts can speak of the
/// character sequences of names.
pub fn str_eq(a: &str, b: &str) -> (r: bool)
    ensures
        r == (a@ == b@),
{
    let an = a.unicode_len();
    let bn = b.unicode_len();
    if an != bn {
        return false;
    }
    let mut i: usize = 0;
    while i < an
        invariant
            0 <= i <= an,
            an == a@.len(),
            an == b@.len(),
            forall|j: int| 0 <= j < i ==> a@[j] == b@[j],
        decreases an - i,
    {
        if a.get_char(i) != b.get_char(i) {
            return false;
        }
        i = i + 1;
    }
    proof {
        assert(a@ =~= b@);
    }
    true
}

/// The position of the first attribute called `name`, if any.
pub open spec fn attr_index_of(attrs: Seq<(String, SchemaProps)>, name: Seq<char>) -> Option<int>
    decreases attrs.len(),
{
    if attrs.len() == 0 {
        None
    } else if attrs[0].0@ == name {
        Some(0)
    } else {
        match attr_index_of(attrs.drop_first(), name) {
            Some(i) => Some(i + 1),
            None => None,
        }
    }
}

pub proof fn lemma_attr_index_of(attrs: Seq<(String, SchemaProps)>, name: Seq<char>)
    ensures
        match attr_index_of(attrs, name) {
            Some(i) => {
                &&& 0 <= i < attrs.len()
                &&& attrs[i].0@ == name
                &&& forall|j: int| 0 <= j < i ==> (#[trigger] attrs[j]).0@ != name
            },
            None => forall|j: int| 0 <= j < attrs.len() ==> (#[trigger] attrs[j]).0@ != name,
        },
    decreases attrs.len(),
{
    if attrs.len() > 0 && attrs[0].0@ != name {
        lemma_attr_index_of(attrs.drop_first(), name);
        assert forall|j: int|
            0 <= j < attrs.len() && attr_index_of(attrs, name) is None implies (
        #[trigger] attrs[j]).0@ != name by {
            if j >= 1 {
                assert(attrs.drop_first()[j - 1].0@ != name);
            }
        }
        if attr_index_of(attrs.drop_first(), name) is Some {
            let i = attr_index_of(attrs.drop_first(), name)->0;
            assert forall|j: int| 0 <= j < i + 1 implies (#[trigger] attrs[j]).0@ != name by {
                if j >= 1 {
                    assert(attrs.drop_first()[j - 1].0@ != name);
                }
            }
        }
    }
}

/// No two attributes share a name.
pub open spec fn distinct_attr_names(attrs: Seq<(String, SchemaProps)>) -> bool {
    forall|i: int, j: int|
        0 <= i < j < attrs.len() ==> (#[trigger] attrs[i]).0@ != (#[trigger] attrs[j]).0@
}

/// Builds a schema: an identifier attribute name and the declared
/// attributes, in declaration order.
#[derive(Debug, Clone)]
pub struct SchemaBuilder {
    identifier: String,
    attributes: Vec<(String, SchemaProps)>,
}

impl SchemaBuilder {
    pub closed spec fn identifier_model(self) -> Seq<char> {
        self.identifier@
    }

    pub closed spec fn attrs_model(self) -> Seq<(String, SchemaProps)> {
        self.attributes@
    }

    /// Declared attribute names are distinct and their ids fit in 16 bits.
    pub closed spec fn wf(self) -> bool {
        distinct_attr_names(self.attributes@) && self.attributes@.len() <= 0xffff
    }

    pub fn with_identifier(name: String) -> (b: SchemaBuilder)
        ensures
            b.wf(),
            b.identifier_model() == name@,
            b.attrs_model().len() == 0,
    {
        SchemaBuilder { identifier: name, attributes: Vec::new() }
    }

    /// Declares a new attribute and returns its id, the next free one.
    ///
    /// A name may be declared only once, and no more than `u16::MAX`
    /// attributes can exist.
    pub fn new_attribute(&mut self, name: String, props: SchemaProps) -> (attr: SchemaAttr)
        requires
            old(self).wf(),
            attr_index_of(old(self).attrs_model(), name@) is None,
            old(self).attrs_model().len() < 0xffff,
        ensures
            final(self).wf(),
            attr == SchemaAttr(old(self).attrs_model().len() as u16),
            final(self).identifier_model() == old(self).identifier_model(),
            final(self).attrs_model() == old(self).attrs_model().push((name, props)),
    {
        let len = self.attributes.len();
        proof {
            lemma_attr_index_of(self.attributes@, name@);
            assert forall|i: int, j: int|
                0 <= i < j < self.attributes@.push((name, props)).len() implies (
            #[trigger] self.attributes@.push((name, props))[i]).0@ != (
            #[trigger] self.attributes@.push((name, props))[j]).0@ by {
                if j < self.attributes@.len() {
                    assert(self.attributes@[i].0@ != self.attributes@[j].0@);
                }
            }
        }
        self.attributes.push((name, props));
        SchemaAttr(len as u16)
    }

    /// Whether an attribute of this name is already declared.
    pub fn has_attribute(&self, name: &str) -> (r: bool)
        ensures
            r == (attr_index_of(self.attrs_model(), name@) is Some),
    {
        match find_index(&self.attributes, name) {
            Some(_) => true,
            None => false,
        }
    }

    /// Freezes the declarations into a schema.
    pub fn build(self) -> (s: Schema)
        requires
            self.wf(),
        ensures
            s.wf(),
            s.identifier_model() == self.identifier_model(),
            s.attrs_model() == self.attrs_model(),
    {
        Schema { identifier: self.identifier, attributes: self.attributes }
    }
}

/// An immutable mapping between attribute names and attribute ids, with
/// the properties of each attribute. The id of an attribute is its
/// position in declaration order.
#[derive(Debug, Clone)]
pub struct Schema {
    identifier: String,
    attributes: Vec<(String, SchemaProps)>,
}

impl Schema {
    pub closed spec fn identifier_model(self) -> Seq<char> {
        self.identifier@
    }

    pub closed spec fn attrs_model(self) -> Seq<(String, SchemaProps)> {
        self.attributes@
    }

    pub closed spec fn wf(self) -> bool {
        distinct_attr_names(self.attributes@) && self.attributes@.len() <= 0xffff
    }

    /// The properties of an existing attribute.
    pub fn props(&self, attr: SchemaAttr) -> (r: SchemaProps)
        requires
            attr.0 < self.attrs_model().len(),
        ensures
            r == self.attrs_model()[attr.0 as int].1,
    {
        self.attributes[attr.0 as usize].1
    }

    /// The name of the identifier attribute.
    pub fn identifier_name(&self) -> (r: &str)
        ensures
            r@ == self.identifier_model(),
    {
        self.identifier.as_str()
    }

    /// The id of the attribute called `name`, if one is declared.
    pub fn attribute(&self, name: &str) -> (r: Option<SchemaAttr>)
        requires
            self.wf(),
        ensures
            match r {
                Some(attr) => {
                    &&& attr_index_of(self.attrs_model(), name@) == Some(attr.0 as int)
                    &&& attr.0 < self.attrs_model().len()
                    &&& self.attrs_model()[attr.0 as int].0@ == name@
                },
                None => attr_index_of(self.attrs_model(), name@) is None,
            },
    {
        proof {
            lemma_attr_index_of(self.attributes@, name@);
        }
        let n = self.attributes.len();
        let mut i: usize = 0;
        while i < n
            invariant
                0 <= i <= n,
                n == self.attributes@.len(),
                n <= 0xffff,
                forall|j: int| 0 <= j < i ==> (#[trigger] self.attributes@[j]).0@ != name@,
            decreases n - i,
        {
            if str_eq(self.attributes[i].0.as_str(), name) {
                proof {
                    lemma_attr_index_of(self.attributes@, name@);
                }
                return Some(SchemaAttr(i as u16));
            }
            i = i + 1;
        }
        proof {
            lemma_attr_index_of(self.attributes@, name@);
        }
        None
    }

    /// The name of an existing attribute.
    pub fn attribute_name(&self, attr: SchemaAttr) -> (r: &str)
        requires
            attr.0 < self.attrs_model().len(),
        ensures
            r@ == self.attrs_model()[attr.0 as int].0@,
    {
        self.attributes[attr.0 as usize].0.as_str()
    }

    /// The identifier attribute name, as a value contracts can carry.
    pub closed spec fn identifier_string(self) -> String {
        self.identifier
    }

    /// Every attribute with its id and properties, in declaration order.
    pub fn iter(&self) -> (r: Vec<(String, SchemaAttr, SchemaProps)>)
        requires
            self.wf(),
        ensures
            r@.len() == self.attrs_model().len(),
            forall|i: int|
                0 <= i < r@.len() ==> {
                    &&& (#[trigger] r@[i]).0@ == self.attrs_model()[i].0@
                    &&& r@[i].1 == SchemaAttr(i as u16)
                    &&& r@[i].2 == self.attrs_model()[i].1
                },
    {
        let n = self.attributes.len();
        let mut r: Vec<(String, SchemaAttr, SchemaProps)> = Vec::new();
        let mut i: usize = 0;
        while i < n
            invariant
                0 <= i <= n,
                n == self.attrs_model().len() <= 0xffff,
                r@.len() == i,
                forall|j: int|
                    0 <= j < i ==> {
                        &&& (#[trigger] r@[j]).0@ == self.attrs_model()[j].0@
                        &&& r@[j].1 == SchemaAttr(j as u16)
                        &&& r@[j].2 == self.attrs_model()[j].1
                    },
            decreases n - i,
        {
            let name = self.attributes[i].0.clone();
            let props = self.attributes[i].1;
            r.push((name, SchemaAttr(i as u16), props));
            i = i + 1;
        }
        r
    }
}

/// One difference between two schemas, in the order the updater sees
/// them: an identifier change, then for each old attribute a move, a
/// property change or a removal, then the attributes that are new.
#[derive(Debug, Clone, PartialEq, Eq)]
pub enum Diff {
    IdentChange { before: String, after: String },
    AttrMove { name: String, before: usize, after: usize },
    AttrPropsChange { name: String, before: SchemaProps, after: SchemaProps },
    NewAttr { name: String, pos: usize, props: SchemaProps },
    RemovedAttr { name: String },
}

/// The differences that the old side of the comparison contributes, for
/// the attributes from position `pos` on: a move when the position
/// changed, a property change when the flags changed, a removal when the
/// name is gone.
pub open spec fn old_side_diffs(
    a: Seq<(String, SchemaProps)>,
    b: Seq<(String, SchemaProps)>,
    pos: int,
) -> Seq<Diff>
    decreases a.len() - pos,
{
    if pos < 0 || pos >= a.len() {
        Seq::empty()
    } else {
        let name = a[pos].0;
        let props = a[pos].1;
        let here = match attr_index_of(b, name@) {
            Some(npos) => {
                let moves: Seq<Diff> = if pos != npos {
                    seq![Diff::AttrMove { name: name, before: pos as usize, after: npos as usize }]
                } else {
                    Seq::empty()
                };
                let changes: Seq<Diff> = if props != b[npos].1 {
                    seq![Diff::AttrPropsChange { name: name, before: props, after: b[npos].1 }]
                } else {
                    Seq::empty()
                };
                moves + changes
            },
            None => seq![Diff::RemovedAttr { name: name }],
        };
        here + old_side_diffs(a, b, pos + 1)
    }
}

/// The attributes of the new side that the old side does not know, from
/// position `pos` on.
pub open spec fn new_side_diffs(
    a: Seq<(String, SchemaProps)>,
    b: Seq<(String, SchemaProps)>,
    pos: int,
) -> Seq<Diff>
    decreases b.len() - pos,
{
    if pos < 0 || pos >= b.len() {
        Seq::empty()
    } else {
        let here: Seq<Diff> = if attr_index_of(a, b[pos].0@) is None {
            seq![Diff::NewAttr { name: b[pos].0, pos: pos as usize, props: b[pos].1 }]
        } else {
            Seq::empty()
        };
        here + new_side_diffs(a, b, pos + 1)
    }
}

/// The full, ordered difference between two schemas.
pub open spec fn spec_schema_diff(
    a_ident: String,
    a: Seq<(String, SchemaProps)>,
    b_ident: String,
    b: Seq<(String, SchemaProps)>,
) -> Seq<Diff> {
    let ident_part: Seq<Diff> = if a_ident@ != b_ident@ {
        seq![Diff::IdentChange { before: a_ident, after: b_ident }]
    } else {
        Seq::empty()
    };
    ident_part + old_side_diffs(a, b, 0) + new_side_diffs(a, b, 0)
}

/// The position of the attribute called `name`, scanning in order.
fn find_index(attrs: &Vec<(String, SchemaProps)>, name: &str) -> (r: Option<usize>)
    ensures
        match r {
            Some(i) => attr_index_of(attrs@, name@) == Some(i as int),
            None => attr_index_of(attrs@, name@) is None,
        },
{
    proof {
        lemma_attr_index_of(attrs@, name@);
    }
    let n = attrs.len();
    let mut i: usize = 0;
    while i < n
        invariant
            0 <= i <= n,
            n == attrs@.len(),
            forall|j: int| 0 <= j < i ==> (#[trigger] attrs@[j]).0@ != name@,
        decreases n - i,
    {
        if str_eq(attrs[i].0.as_str(), name) {
            proof {
                lemma_attr_index_of(attrs@, name@);
            }
            return Some(i);
        }
        i = i + 1;
    }
    proof {
        lemma_attr_index_of(attrs@, name@);
    }
    None
}

/// Emits the totally ordered list of changes that turn `old_schema` into
/// `new_schema`.
pub fn diff(old_schema: &Schema, new_schema: &Schema) -> (r: Vec<Diff>)
    ensures
        r@ == spec_schema_diff(
            old_schema.identifier_string(),
            old_schema.attrs_model(),
            new_schema.identifier_string(),
            new_schema.attrs_model(),
        ),
{
    let ghost aseq = old_schema.attributes@;
    let ghost bseq = new_schema.attributes@;
    let mut r: Vec<Diff> = Vec::new();

    if !str_eq(old_schema.identifier.as_str(), new_schema.identifier.as_str()) {
        let before = old_schema.identifier.clone();
        let after = new_schema.identifier.clone();
        r.push(Diff::IdentChange { before, after });
    }
    let ghost ident_part = r@;

    // the old side: moves, property changes and removals, in order
    let n = old_schema.attributes.len();
    let mut pos: usize = 0;
    while pos < n
        invariant
            0 <= pos <= n,
            n == aseq.len(),
            aseq == old_schema.attributes@,
            bseq == new_schema.attributes@,
            r@ + old_side_diffs(aseq, bseq, pos as int) == ident_part + old_side_diffs(
                aseq,
                bseq,
                0,
            ),
        decreases n - pos,
    {
        let name = old_schema.attributes[pos].0.clone();
        let props = old_schema.attributes[pos].1;
        let ghost r_before = r@;
        match find_index(&new_schema.attributes, name.as_str()) {
            Some(npos) => {
                proof {
                    lemma_attr_index_of(bseq, name@);
                }
                if pos != npos {
                    let moved_name = name.clone();
                    r.push(Diff::AttrMove { name: moved_name, before: pos, after: npos });
                }
                let nprops = new_schema.attributes[npos].1;
                if props != nprops {
                    let changed_name = name.clone();
                    r.push(
                        Diff::AttrPropsChange { name: changed_name, before: props, after: nprops },
                    );
                }
            },
            None => {
                r.push(Diff::RemovedAttr { name });
            },
        }
        proof {
            assert(r@ + old_side_diffs(aseq, bseq, pos + 1) =~= r_before + old_side_diffs(
                aseq,
                bseq,
                pos as int,
            ));
        }
        pos = pos + 1;
    }
    let ghost old_part = r@;

    // the new side: attributes the old schema does not know
    let m = new_schema.attributes.len();
    let mut npos: usize = 0;
    while npos < m
        invariant
            0 <= npos <= m,
            m == bseq.len(),
            aseq == old_schema.attributes@,
            bseq == new_schema.attributes@,
            r@ + new_side_diffs(aseq, bseq, npos as int) == old_part + new_side_diffs(
                aseq,
                bseq,
                0,
            ),
        decreases m - npos,
    {
        let ghost r_before = r@;
        let name = new_schema.attributes[npos].0.clone();
        let props = new_schema.attributes[npos].1;
        if find_index(&old_schema.attributes, name.as_str()).is_none() {
            r.push(Diff::NewAttr { name, pos: npos, props });
        }
        proof {
            assert(r@ + new_side_diffs(aseq, bseq, npos + 1) =~= r_before + new_side_diffs(
                aseq,
                bseq,
                npos as int,
            ));
        }
        npos = npos + 1;
    }
    proof {
        assert(r@ =~= spec_schema_diff(
            old_schema.identifier_string(),
            old_schema.attrs_model(),
            new_schema.identifier_string(),
            new_schema.attrs_model(),
        ));
    }
    r
}

/// With distinct names, the attribute called `name` that sits at `pos` is
/// found exactly there.
proof fn lemma_find_self(attrs: Seq<(String, SchemaProps)>, pos: int)
    requires
        distinct_attr_names(attrs),
        0 <= pos < attrs.len(),
    ensures
        attr_index_of(attrs, attrs[pos].0@) == Some(pos),
{
    lemma_attr_index_of(attrs, attrs[pos].0@);
    match attr_index_of(attrs, attrs[pos].0@) {
        Some(i) => {
            if i < pos {
                assert(attrs[i].0@ != attrs[pos].0@);
            } else if i > pos {
                assert(attrs[pos].0@ != attrs[i].0@);
            }
        },
        None => {
            assert(attrs[pos].0@ != attrs[pos].0@);
        },
    }
}

proof fn lemma_old_side_diffs_same(attrs: Seq<(String, SchemaProps)>, pos: int)
    requires
        distinct_attr_names(attrs),
        0 <= pos,
    ensures
        old_side_diffs(attrs, attrs, pos) == Seq::<Diff>::empty(),
    decreases attrs.len() - pos,
{
    if pos < attrs.len() {
        lemma_find_self(attrs, pos);
        lemma_old_side_diffs_same(attrs, pos + 1);
        assert(old_side_diffs(attrs, attrs, pos) =~= Seq::<Diff>::empty());
    }
}

proof fn lemma_new_side_diffs_same(attrs: Seq<(String, SchemaProps)>, pos: int)
    requires
        distinct_attr_names(attrs),
        0 <= pos,
    ensures
        new_side_diffs(attrs, attrs, pos) == Seq::<Diff>::empty(),
    decreases attrs.len() - pos,
{
    if pos < attrs.len() {
        lemma_find_self(attrs, pos);
        lemma_new_side_diffs_same(attrs, pos + 1);
        assert(new_side_diffs(attrs, attrs, pos) =~= Seq::<Diff>::empty());
    }
}

/// What a well-formed schema guarantees: its attribute names are
/// pairwise distinct and their ids fit in 16 bits.
pub proof fn lemma_schema_wf(s: Schema)
    requires
        s.wf(),
    ensures
        distinct_attr_names(s.attrs_model()),
        s.attrs_model().len() <= 0xffff,
{
}

/// The same, for a builder.
pub proof fn lemma_schema_builder_wf(b: SchemaBuilder)
    requires
        b.wf(),
    ensures
        distinct_attr_names(b.attrs_model()),
        b.attrs_model().len() <= 0xffff,
{
}

/// In a well-formed schema, looking an attribute's own name up finds
/// exactly that attribute: the name-to-id and id-to-name mappings are
/// inverses.
pub proof fn lemma_attribute_round_trip(s: Schema, pos: int)
    requires
        s.wf(),
        0 <= pos < s.attrs_model().len(),
    ensures
        attr_index_of(s.attrs_model(), s.attrs_model()[pos].0@) == Some(pos),
{
    lemma_find_self(s.attrs_model(), pos);
}

/// A schema differs from itself in nothing.
pub proof fn lemma_diff_same_schema(s: Schema)
    requires
        s.wf(),
    ensures
        spec_schema_diff(
            s.identifier_string(),
            s.attrs_model(),
            s.identifier_string(),
            s.attrs_model(),
        ) == Seq::<Diff>::empty(),
{
    lemma_old_side_diffs_same(s.attrs_model(), 0);
    lemma_new_side_diffs_same(s.attrs_model(), 0);
    assert(spec_schema_diff(
        s.identifier_string(),
        s.attrs_model(),
        s.identifier_string(),
        s.attrs_model(),
    ) =~= Seq::<Diff>::empty());
}

} // verus!
