//! Enum attributes: named values, aliases onto those values, and an optional default.
use vstd::prelude::*;

verus! {

/// Whether name `a` comes before name `b`: compared character by character by code point, a
/// proper prefix first. This is the order of `String`.
pub open spec fn name_lt(a: Seq<char>, b: Seq<char>) -> bool
    decreases a.len(),
{
    if b.len() == 0 {
        false
    } else if a.len() == 0 {
        true
    } else if a[0] != b[0] {
        a[0] < b[0]
    } else {
        name_lt(a.drop_first(), b.drop_first())
    }
}

/// Whether the names are in strictly ascending order.
pub open spec fn sorted_names(names: Seq<Seq<char>>) -> bool {
    forall|a: int, b: int| 0 <= a < b < names.len() ==> name_lt(#[trigger] names[a], #[trigger] names[b])
}

/// No name comes before itself, and of two different names one comes first.
pub proof fn lemma_name_order_total(a: Seq<char>, b: Seq<char>)
    ensures
        !name_lt(a, a),
        a != b ==> name_lt(a, b) || name_lt(b, a),
        !(name_lt(a, b) && name_lt(b, a)),
    decreases a.len(),
{
    if a.len() > 0 {
        lemma_name_order_total(a.drop_first(), a.drop_first());
    }
    if a.len() > 0 && b.len() > 0 {
        lemma_name_order_total(a.drop_first(), b.drop_first());
        if a[0] == b[0] && a != b {
            assert(a.drop_first() != b.drop_first()) by {
                if a.drop_first() == b.drop_first() {
                    assert forall|i: int| 0 <= i < a.len() implies a[i] == b[i] by {
                        if i > 0 {
                            assert(a[i] == a.drop_first()[i - 1]);
                            assert(b[i] == b.drop_first()[i - 1]);
                        }
                    }
                    assert(a =~= b);
                }
            }
        }
    }
    if a.len() == 0 && b.len() == 0 {
        assert(a =~= b);
    }
}

/// The order of names is transitive.
pub proof fn lemma_name_order_transitive(a: Seq<char>, b: Seq<char>, c: Seq<char>)
    requires
        name_lt(a, b),
        name_lt(b, c),
    ensures
        name_lt(a, c),
    decreases a.len(),
{
    if a.len() > 0 && b.len() > 0 && c.len() > 0 && a[0] == b[0] && b[0] == c[0] {
        lemma_name_order_transitive(a.drop_first(), b.drop_first(), c.drop_first());
    }
}

/// Whether `a` comes before `b`.
pub fn name_less(a: &String, b: &String) -> (r: bool)
    ensures
        r == name_lt(a@, b@),
{
    let sa = a.as_str();
    let sb = b.as_str();
    let la = sa.unicode_len();
    let lb = sb.unicode_len();
    let mut i: usize = 0;
    assert(a@.skip(0) =~= a@);
    assert(b@.skip(0) =~= b@);
    while i < la && i < lb
        invariant
            la == a@.len(),
            lb == b@.len(),
            sa@ == a@,
            sb@ == b@,
            0 <= i <= la,
            i <= lb,
            name_lt(a@, b@) == name_lt(a@.skip(i as int), b@.skip(i as int)),
        decreases la - i,
    {
        let ca = sa.get_char(i);
        let cb = sb.get_char(i);
        if ca != cb {
            assert(a@.skip(i as int)[0] == ca);
            assert(b@.skip(i as int)[0] == cb);
            return ca < cb;
        }
        assert(a@.skip(i as int).drop_first() =~= a@.skip(i + 1));
        assert(b@.skip(i as int).drop_first() =~= b@.skip(i + 1));
        i += 1;
    }
    i < lb
}

/// The views of a list of strings.
pub open spec fn views_of(s: Seq<String>) -> Seq<Seq<char>> {
    s.map_values(|n: String| n@)
}

/// The names of a list of named entries.
pub open spec fn names_of<V>(entries: Seq<(String, V)>) -> Seq<Seq<char>> {
    entries.map_values(|e: (String, V)| e.0@)
}

/// The place of an entry of the given name.
pub open spec fn index_of_name<V>(entries: Seq<(String, V)>, name: Seq<char>) -> int {
    choose|i: int| 0 <= i < entries.len() && #[trigger] entries[i].0@ == name
}

/// Whether `i` is where `name` goes among sorted entries: after the names before it, before the
/// names after it.
pub open spec fn is_insertion_place<V>(entries: Seq<(String, V)>, name: Seq<char>, i: int) -> bool {
    &&& 0 <= i <= entries.len()
    &&& forall|j: int| 0 <= j < i ==> name_lt(#[trigger] entries[j].0@, name)
    &&& forall|j: int| i <= j < entries.len() ==> name_lt(name, #[trigger] entries[j].0@)
}

/// `entries`, kept sorted by name, after setting `name` to `val`: the entry of that name is
/// replaced in place, or a new entry is inserted at its place in the order.
pub open spec fn upserted<V>(entries: Seq<(String, V)>, name: String, val: V) -> Seq<(String, V)> {
    if names_of(entries).contains(name@) {
        entries.update(index_of_name(entries, name@), (name, val))
    } else {
        entries.insert(choose|i: int| is_insertion_place(entries, name@, i), (name, val))
    }
}

/// Sets `name` to `val` in a list of entries sorted by name.
fn upsert<V>(entries: &mut Vec<(String, V)>, name: String, val: V)
    requires
        sorted_names(names_of(old(entries)@)),
    ensures
        final(entries)@ == upserted(old(entries)@, name, val),
        sorted_names(names_of(final(entries)@)),
        names_of(final(entries)@).no_duplicates(),
{
    let ghost e0 = entries@;
    let ghost n0 = names_of(e0);
    let mut i: usize = 0;
    while i < entries.len() && name_less(&entries[i].0, &name)
        invariant
            0 <= i <= entries.len(),
            entries@ == e0,
            n0 == names_of(e0),
            sorted_names(n0),
            forall|j: int| 0 <= j < i ==> name_lt(#[trigger] e0[j].0@, name@),
        decreases entries.len() - i,
    {
        i += 1;
    }
    if i < entries.len() && entries[i].0 == name {
        proof {
            assert(n0[i as int] == name@);
            assert(n0.contains(name@));
            let k = index_of_name(e0, name@);
            assert(k == i) by {
                if k != i {
                    assert(n0[k] == n0[i as int]);
                    if k < i {
                        assert(name_lt(n0[k], n0[i as int]));
                    } else {
                        assert(name_lt(n0[i as int], n0[k]));
                    }
                    lemma_name_order_total(n0[k], n0[k]);
                }
            }
        }
        entries.set(i, (name, val));
        proof {
            assert forall|a: int, b: int|
                0 <= a < b < entries@.len() implies name_lt(#[trigger] names_of(entries@)[a], #[trigger] names_of(
                    entries@,
                )[b]) by {
                assert(names_of(entries@)[a] == n0[a]);
                assert(names_of(entries@)[b] == n0[b]);
            }
        }
    } else {
        proof {
            assert forall|j: int| i <= j < e0.len() implies name_lt(name@, #[trigger] e0[j].0@) by {
                lemma_name_order_total(e0[i as int].0@, name@);
                if j > i {
                    assert(name_lt(n0[i as int], n0[j]));
                    lemma_name_order_transitive(name@, e0[i as int].0@, e0[j].0@);
                }
            }
            assert(is_insertion_place(e0, name@, i as int));
            let c = choose|c: int| is_insertion_place(e0, name@, c);
            assert(c == i) by {
                if c < i {
                    assert(name_lt(name@, e0[c].0@));
                    assert(name_lt(e0[c].0@, name@));
                    lemma_name_order_total(name@, e0[c].0@);
                } else if c > i {
                    assert(name_lt(e0[i as int].0@, name@));
                    assert(name_lt(name@, e0[i as int].0@));
                    lemma_name_order_total(name@, e0[i as int].0@);
                }
            }
            assert(!n0.contains(name@)) by {
                if n0.contains(name@) {
                    let k = choose|k: int| 0 <= k < n0.len() && n0[k] == name@;
                    if k < i {
                        assert(name_lt(e0[k].0@, name@));
                    } else {
                        assert(name_lt(name@, e0[k].0@));
                    }
                    lemma_name_order_total(name@, name@);
                }
            }
        }
        entries.insert(i, (name, val));
        proof {
            assert forall|a: int, b: int|
                0 <= a < b < entries@.len() implies name_lt(#[trigger] names_of(entries@)[a], #[trigger] names_of(
                    entries@,
                )[b]) by {
                let ns = names_of(entries@);
                assert(ns[a] == entries@[a].0@ && ns[b] == entries@[b].0@);
                if b < i {
                    assert(entries@[a] == e0[a] && entries@[b] == e0[b]);
                    assert(name_lt(n0[a], n0[b]));
                } else if b == i {
                    assert(entries@[a] == e0[a]);
                    assert(entries@[b].0@ == name@);
                    assert(name_lt(e0[a].0@, name@));
                } else if a == i {
                    assert(entries@[b] == e0[b - 1]);
                    assert(entries@[a].0@ == name@);
                    assert(name_lt(name@, e0[b - 1].0@));
                } else if a < i {
                    assert(entries@[a] == e0[a] && entries@[b] == e0[b - 1]);
                    assert(name_lt(e0[a].0@, name@));
                    assert(name_lt(name@, e0[b - 1].0@));
                    lemma_name_order_transitive(e0[a].0@, name@, e0[b - 1].0@);
                } else {
                    assert(entries@[a] == e0[a - 1] && entries@[b] == e0[b - 1]);
                    assert(name_lt(n0[a - 1], n0[b - 1]));
                }
            }
        }
    }
    proof {
        assert forall|a: int, b: int|
            0 <= a < names_of(entries@).len() && 0 <= b < names_of(entries@).len() && a != b implies names_of(
                entries@,
            )[a] != names_of(entries@)[b] by {
            let ns = names_of(entries@);
            if a < b {
                assert(name_lt(ns[a], ns[b]));
            } else {
                assert(name_lt(ns[b], ns[a]));
            }
            lemma_name_order_total(ns[a], ns[a]);
            lemma_name_order_total(ns[b], ns[b]);
        }
    }
}

/// Whether `i` is the first place of `name` among the names.
pub open spec fn is_first_name(names: Seq<Seq<char>>, name: Seq<char>, i: int) -> bool {
    0 <= i < names.len() && names[i] == name && forall|j: int| 0 <= j < i ==> names[j] != name
}

/// Finds the first entry of a name.
fn position_of<V>(entries: &Vec<(String, V)>, name: &String) -> (r: Option<usize>)
    ensures
        match r {
            Some(i) => i < entries@.len() && entries@[i as int].0@ == name@ && is_first_name(
                names_of(entries@),
                name@,
                i as int,
            ),
            None => !names_of(entries@).contains(name@),
        },
{
    let mut i: usize = 0;
    while i < entries.len()
        invariant
            0 <= i <= entries.len(),
            forall|j: int| 0 <= j < i ==> entries@[j].0@ != name@,
        decreases entries.len() - i,
    {
        if entries[i].0 == *name {
            proof {
                assert forall|j: int| 0 <= j < i implies names_of(entries@)[j] != name@ by {
                    assert(entries@[j].0@ != name@);
                }
            }
            return Some(i);
        }
        i += 1;
    }
    proof {
        if names_of(entries@).contains(name@) {
            let k = choose|k: int| 0 <= k < names_of(entries@).len() && names_of(entries@)[k] == name@;
            assert(entries@[k].0@ != name@);
        }
    }
    None
}

/// The description and deprecation status of an enum value.
#[derive(Debug, Clone, Default, PartialEq, Eq)]
pub struct EnumTypeValue {
    /// A description for the value.
    pub description: Option<String>,
    /// Whether the value is deprecated; a deprecated value still parses.
    pub deprecated: bool,
}

/// Attributes for an enum type.
///
/// Values can be added to an enum type over time but never removed; a value can be deprecated
/// instead. Values and aliases are kept in ascending order of name. Aliases are further names for values and never overlap with value names. An empty
/// enum is allowed, though no input satisfies it.
#[derive(Debug, PartialEq, Eq)]
pub struct EnumTypeAttributes {
    values: Vec<(String, EnumTypeValue)>,
    aliases: Vec<(String, String)>,
    default: Option<String>,
}

/// An error that can occur when building enum type attributes.
#[derive(Debug, Clone, PartialEq, Eq)]
pub enum NewEnumTypeAttributesError {
    /// A name is both a value and an alias.
    EnumValueIsAlias(String),
    /// An alias points to a name that is not a value (alias, target).
    EnumAliasPointsToNonExistantValue(String, String),
    /// The default is not a value.
    DefaultValueIsNotAValidEnumValue(String),
}

/// `entries` after setting each of `s`, in order, as `upsert` does.
pub open spec fn upsert_all<V>(entries: Seq<(String, V)>, s: Seq<(String, V)>) -> Seq<(String, V)>
    decreases s.len(),
{
    if s.len() == 0 {
        entries
    } else {
        upsert_all(upserted(entries, s[0].0, s[0].1), s.drop_first())
    }
}

/// Whether alias `i` is the first, in order, that names a value or points to no value.
pub open spec fn first_bad_alias(values: Seq<Seq<char>>, aliases: Seq<(String, String)>, i: int) -> bool {
    &&& 0 <= i < aliases.len()
    &&& (values.contains(aliases[i].0@) || !values.contains(aliases[i].1@))
    &&& forall|j: int|
        0 <= j < i ==> !values.contains(#[trigger] aliases[j].0@) && values.contains(
            aliases[j].1@,
        )
}

/// Whether every alias points to a value without being one, and the default is a value.
pub open spec fn enum_rules_hold(
    values: Seq<Seq<char>>,
    aliases: Seq<(String, String)>,
    default: Option<String>,
) -> bool {
    &&& forall|j: int|
        0 <= j < aliases.len() ==> !values.contains(#[trigger] aliases[j].0@) && values.contains(
            aliases[j].1@,
        )
    &&& (default matches Some(d) ==> values.contains(d@))
}

/// What building enum attributes from these entries returns: the attributes themselves when the
/// rules hold; otherwise the error of the first alias at fault, or else of the default.
pub open spec fn build_outcome(
    values: Seq<(String, EnumTypeValue)>,
    aliases: Seq<(String, String)>,
    default: Option<String>,
    r: Result<EnumTypeAttributes, NewEnumTypeAttributesError>,
) -> bool {
    let names = names_of(values);
    match r {
        Ok(a) => enum_rules_hold(names, aliases, default) && a.value_entries() == values
            && a.alias_entries() == aliases && a.default_value() == default,
        Err(NewEnumTypeAttributesError::EnumValueIsAlias(n)) => exists|i: int|
            first_bad_alias(names, aliases, i) && #[trigger] aliases[i].0 == n && names.contains(
                n@,
            ),
        Err(NewEnumTypeAttributesError::EnumAliasPointsToNonExistantValue(n, t)) => exists|i: int|
            first_bad_alias(names, aliases, i) && #[trigger] aliases[i] == (n, t)
                && !names.contains(n@) && !names.contains(t@),
        Err(NewEnumTypeAttributesError::DefaultValueIsNotAValidEnumValue(d)) => {
            &&& forall|j: int|
                0 <= j < aliases.len() ==> !names.contains(#[trigger] aliases[j].0@)
                    && names.contains(aliases[j].1@)
            &&& default == Some(d)
            &&& !names.contains(d@)
        },
    }
}

impl EnumTypeAttributes {
    /// The values, in ascending order of name.
    pub closed spec fn value_entries(&self) -> Seq<(String, EnumTypeValue)> {
        self.values@
    }

    /// The aliases, in ascending order of name.
    pub closed spec fn alias_entries(&self) -> Seq<(String, String)> {
        self.aliases@
    }

    /// The default value.
    pub closed spec fn default_value(&self) -> Option<String> {
        self.default
    }

    /// The names of the values.
    pub open spec fn value_names(&self) -> Seq<Seq<char>> {
        names_of(self.value_entries())
    }

    /// Whether the attributes satisfy the enum rules, with unique value and alias names.
    pub open spec fn wf(&self) -> bool {
        &&& self.value_names().no_duplicates()
        &&& names_of(self.alias_entries()).no_duplicates()
        &&& sorted_names(self.value_names())
        &&& sorted_names(names_of(self.alias_entries()))
        &&& enum_rules_hold(self.value_names(), self.alias_entries(), self.default_value())
    }

    /// The rules hold for every enum attributes value.
    #[verifier::type_invariant]
    spec fn rules_hold(&self) -> bool {
        self.wf()
    }

    /// Returns a builder with no values, no aliases and no default.
    pub fn builder() -> (r: EnumTypeAttributesBuilder)
        ensures
            r.value_entries().len() == 0,
            r.alias_entries().len() == 0,
            r.default_value() is None,
    {
        EnumTypeAttributesBuilder { values: Vec::new(), aliases: Vec::new(), default: None }
    }

    /// Creates enum attributes. Values and aliases are kept in ascending order of name; a name given
    /// twice keeps its last entry. Then the rules are checked as `EnumTypeAttributesBuilder::build`
    /// checks them, aliases in ascending order of name.
    pub fn new(
        values: Vec<(String, EnumTypeValue)>,
        aliases: Vec<(String, String)>,
        default: Option<String>,
    ) -> (r: Result<Self, NewEnumTypeAttributesError>)
        ensures
            build_outcome(
                upsert_all(Seq::empty(), values@),
                upsert_all(Seq::empty(), aliases@),
                default,
                r,
            ),
    {
        let mut builder = Self::builder();
        let mut values = values;
        let mut aliases = aliases;
        let ghost all_values = values@;
        let ghost all_aliases = aliases@;
        assert(builder.value_entries() =~= Seq::empty());
        while values.len() > 0
            invariant
                names_of(builder.value_entries()).no_duplicates(),
                names_of(builder.alias_entries()).no_duplicates(),
                builder.alias_entries().len() == 0,
                builder.default_value() is None,
                aliases@ == all_aliases,
                upsert_all(builder.value_entries(), values@) == upsert_all(
                    Seq::empty(),
                    all_values,
                ),
            decreases values.len(),
        {
            let ghost before = values@;
            let (name, val) = values.remove(0);
            assert(values@ == before.drop_first());
            builder = builder.with_value_ext(name, val.description, val.deprecated);
        }
        assert(builder.alias_entries() =~= Seq::empty());
        while aliases.len() > 0
            invariant
                names_of(builder.value_entries()).no_duplicates(),
                names_of(builder.alias_entries()).no_duplicates(),
                builder.value_entries() == upsert_all(Seq::empty(), all_values),
                builder.default_value() is None,
                upsert_all(builder.alias_entries(), aliases@) == upsert_all(
                    Seq::empty(),
                    all_aliases,
                ),
            decreases aliases.len(),
        {
            let ghost before = aliases@;
            let (name, target) = aliases.remove(0);
            assert(aliases@ == before.drop_first());
            builder = builder.with_alias(name, target);
        }
        match default {
            Some(d) => builder.with_default(d).build(),
            None => builder.build(),
        }
    }
}

/// A builder for enum type attributes.
#[derive(Debug)]
pub struct EnumTypeAttributesBuilder {
    values: Vec<(String, EnumTypeValue)>,
    aliases: Vec<(String, String)>,
    default: Option<String>,
}

impl EnumTypeAttributesBuilder {
    /// The values set so far.
    pub closed spec fn value_entries(&self) -> Seq<(String, EnumTypeValue)> {
        self.values@
    }

    /// The aliases set so far.
    pub closed spec fn alias_entries(&self) -> Seq<(String, String)> {
        self.aliases@
    }

    /// The default set so far.
    pub closed spec fn default_value(&self) -> Option<String> {
        self.default
    }

    /// Whether value and alias names are unique and in ascending order, as the builder keeps them.
    pub open spec fn wf(&self) -> bool {
        &&& names_of(self.value_entries()).no_duplicates()
        &&& names_of(self.alias_entries()).no_duplicates()
        &&& sorted_names(names_of(self.value_entries()))
        &&& sorted_names(names_of(self.alias_entries()))
    }

    /// Value and alias names are unique and in ascending order.
    #[verifier::type_invariant]
    spec fn names_unique(&self) -> bool {
        &&& names_of(self.values@).no_duplicates()
        &&& names_of(self.aliases@).no_duplicates()
        &&& sorted_names(names_of(self.values@))
        &&& sorted_names(names_of(self.aliases@))
    }

    /// Adds a value with no description, not deprecated; a value of that name is replaced.
    pub fn with_value(self, name: String) -> (r: Self)
        ensures
            r.wf(),
            r.value_entries() == upserted(
                self.value_entries(),
                name,
                EnumTypeValue { description: None, deprecated: false },
            ),
            r.alias_entries() == self.alias_entries(),
            r.default_value() == self.default_value(),
    {
        self.with_value_ext(name, None, false)
    }

    /// Adds a value with a description and deprecation status; a value of that name is replaced.
    pub fn with_value_ext(self, name: String, description: Option<String>, deprecated: bool) -> (r:
        Self)
        ensures
            r.wf(),
            r.value_entries() == upserted(
                self.value_entries(),
                name,
                EnumTypeValue { description, deprecated },
            ),
            r.alias_entries() == self.alias_entries(),
            r.default_value() == self.default_value(),
    {
        proof {
            use_type_invariant(&self);
        }
        let EnumTypeAttributesBuilder { values, aliases, default } = self;
        let mut values = values;
        upsert(&mut values, name, EnumTypeValue { description, deprecated });
        EnumTypeAttributesBuilder { values, aliases, default }
    }

    /// Adds an alias for a value; an alias of that name is replaced.
    pub fn with_alias(self, name: String, value: String) -> (r: Self)
        ensures
            r.wf(),
            r.value_entries() == self.value_entries(),
            r.alias_entries() == upserted(self.alias_entries(), name, value),
            r.default_value() == self.default_value(),
    {
        proof {
            use_type_invariant(&self);
        }
        let EnumTypeAttributesBuilder { values, aliases, default } = self;
        let mut aliases = aliases;
        upsert(&mut aliases, name, value);
        EnumTypeAttributesBuilder { values, aliases, default }
    }

    /// Sets the default value.
    pub fn with_default(self, name: String) -> (r: Self)
        ensures
            r.wf(),
            r.value_entries() == self.value_entries(),
            r.alias_entries() == self.alias_entries(),
            r.default_value() == Some(name),
    {
        proof {
            use_type_invariant(&self);
        }
        let EnumTypeAttributesBuilder { values, aliases, default: _ } = self;
        EnumTypeAttributesBuilder { values, aliases, default: Some(name) }
    }

    /// Builds the attributes: every alias, in order, must point to a value without being one,
    /// and the default must be a value.
    pub fn build(self) -> (r: Result<EnumTypeAttributes, NewEnumTypeAttributesError>)
        ensures
            build_outcome(self.value_entries(), self.alias_entries(), self.default_value(), r),
            r matches Ok(a) ==> a.wf(),
    {
        proof {
            use_type_invariant(&self);
        }
        let ghost names = names_of(self.values@);
        let mut i: usize = 0;
        while i < self.aliases.len()
            invariant
                0 <= i <= self.aliases@.len(),
                names == names_of(self.values@),
                self.wf(),
                forall|j: int|
                    0 <= j < i ==> !names.contains(#[trigger] self.aliases@[j].0@)
                        && names.contains(self.aliases@[j].1@),
            decreases self.aliases@.len() - i,
        {
            let (alias, target) = (&self.aliases[i].0, &self.aliases[i].1);
            let alias_found = position_of(&self.values, alias);
            if let Some(k) = alias_found {
                let n = alias.clone();
                assert(names[k as int] == alias@);
                assert(first_bad_alias(names, self.aliases@, i as int));
                assert(self.aliases@[i as int].0 == n);
                return Err(NewEnumTypeAttributesError::EnumValueIsAlias(n));
            }
            let found = position_of(&self.values, target);
            if let Some(k) = found {
                assert(names[k as int] == target@);
            }
            if found.is_none() {
                let pair = (alias.clone(), target.clone());
                assert(first_bad_alias(names, self.aliases@, i as int));
                assert(self.aliases@[i as int] == pair);
                return Err(NewEnumTypeAttributesError::EnumAliasPointsToNonExistantValue(pair.0, pair.1));
            }
            assert(alias_found is None);
            assert(alias@ == self.aliases@[i as int].0@);
            assert(target@ == self.aliases@[i as int].1@);
            assert(!names.contains(self.aliases@[i as int].0@));
            let k = found.unwrap();
            assert(names[k as int] == self.aliases@[i as int].1@);
            assert(names.contains(self.aliases@[i as int].1@));
            assert forall|j: int| 0 <= j < i + 1 implies !names.contains(#[trigger] self.aliases@[j].0@)
                && names.contains(self.aliases@[j].1@) by {
                if j < i {
                } else {
                    assert(j == i);
                }
            }
            i += 1;
        }
        if let Some(d) = &self.default {
            let found = position_of(&self.values, d);
            if let Some(k) = found {
                assert(names[k as int] == d@);
            }
            if found.is_none() {
                return Err(NewEnumTypeAttributesError::DefaultValueIsNotAValidEnumValue(d.clone()));
            }
        }
        let EnumTypeAttributesBuilder { values, aliases, default } = self;
        Ok(EnumTypeAttributes { values, aliases, default })
    }
}

/// The view of an optional name.
pub open spec fn opt_view(o: Option<String>) -> Option<Seq<char>> {
    match o {
        Some(s) => Some(s@),
        None => None,
    }
}

/// The value name that `name` stands for: itself if it is a value, else the target of the first
/// alias of that name; none if it is neither.
pub open spec fn resolve_enum_name(e: EnumTypeAttributes, name: Seq<char>) -> Option<Seq<char>> {
    let aliases = e.alias_entries();
    if e.value_names().contains(name) {
        Some(name)
    } else if names_of(aliases).contains(name) {
        Some(aliases[choose|i: int| is_first_name(names_of(aliases), name, i)].1@)
    } else {
        None
    }
}

impl EnumTypeAttributes {
    /// The value name that `name` stands for, following an alias; none for an unknown name.
    /// Deprecated values resolve like any other.
    pub fn resolve(&self, name: &String) -> (r: Option<String>)
        ensures
            opt_view(r) == resolve_enum_name(*self, name@),
            r matches Some(n) ==> self.value_names().contains(n@),
    {
        proof {
            use_type_invariant(self);
        }
        if position_of(&self.values, name).is_some() {
            return Some(name.clone());
        }
        match position_of(&self.aliases, name) {
            Some(k) => {
                proof {
                    let names = names_of(self.aliases@);
                    assert(names[k as int] == name@);
                    let c = choose|i: int| is_first_name(names, name@, i);
                    if c < k {
                        assert(names[c] != name@);
                    } else if k < c {
                        assert(names[k as int] != name@);
                    }
                }
                proof {
                    assert(self.alias_entries()[k as int] == self.aliases@[k as int]);
                }
                Some(self.aliases[k].1.clone())
            },
            None => None,
        }
    }
}

impl EnumTypeAttributes {
    /// The names of the values, in ascending order.
    pub fn value_name_list(&self) -> (r: Vec<String>)
        ensures
            views_of(r@) == self.value_names(),
    {
        let mut out: Vec<String> = Vec::new();
        let mut k: usize = 0;
        while k < self.values.len()
            invariant
                0 <= k <= self.values@.len(),
                out@.len() == k,
                views_of(out@) == names_of(self.values@).take(k as int),
            decreases self.values@.len() - k,
        {
            let ghost prev = out@;
            out.push(self.values[k].0.clone());
            assert forall|j: int| 0 <= j < k + 1 implies #[trigger] views_of(out@)[j]
                == names_of(self.values@).take(k + 1)[j] by {
                if j < k {
                    assert(out@[j] == prev[j]);
                    assert(views_of(prev)[j] == names_of(self.values@).take(k as int)[j]);
                }
            }
            assert(views_of(out@) =~= names_of(self.values@).take(k + 1));
            k += 1;
        }
        assert(names_of(self.values@).take(k as int) =~= names_of(self.values@));
        out
    }
}

impl EnumTypeAttributes {
    /// The values with their descriptions and deprecation status, in ascending order of name.
    pub fn values(&self) -> (r: &Vec<(String, EnumTypeValue)>)
        ensures
            r@ == self.value_entries(),
    {
        &self.values
    }

    /// The aliases with the values they stand for, in ascending order of name.
    pub fn aliases(&self) -> (r: &Vec<(String, String)>)
        ensures
            r@ == self.alias_entries(),
    {
        &self.aliases
    }

    /// The default value.
    pub fn default_value_name(&self) -> (r: &Option<String>)
        ensures
            *r == self.default_value(),
    {
        &self.default
    }
}

impl Default for EnumTypeAttributes {
    fn default() -> (r: Self)
        ensures
            r.value_entries().len() == 0,
            r.alias_entries().len() == 0,
            r.default_value() is None,
            r.wf(),
    {
        let values: Vec<(String, EnumTypeValue)> = Vec::new();
        let aliases: Vec<(String, String)> = Vec::new();
        assert(names_of(values@) =~= Seq::empty());
        assert(names_of(aliases@) =~= Seq::empty());
        EnumTypeAttributes { values, aliases, default: None }
    }
}

fn copy_value(v: &EnumTypeValue) -> (r: EnumTypeValue)
    ensures
        r == *v,
{
    let description = match &v.description {
        Some(d) => Some(d.clone()),
        None => None,
    };
    EnumTypeValue { description, deprecated: v.deprecated }
}

impl Clone for EnumTypeAttributes {
    fn clone(&self) -> (r: Self)
        ensures
            r.value_entries() == self.value_entries(),
            r.alias_entries() == self.alias_entries(),
            r.default_value() == self.default_value(),
    {
        proof {
            use_type_invariant(self);
        }
        let mut values: Vec<(String, EnumTypeValue)> = Vec::new();
        let mut k: usize = 0;
        while k < self.values.len()
            invariant
                0 <= k <= self.values@.len(),
                values@ == self.values@.take(k as int),
            decreases self.values@.len() - k,
        {
            values.push((self.values[k].0.clone(), copy_value(&self.values[k].1)));
            assert(self.values@.take(k + 1) == self.values@.take(k as int).push(self.values@[k as int]));
            k += 1;
        }
        let mut aliases: Vec<(String, String)> = Vec::new();
        let mut k: usize = 0;
        while k < self.aliases.len()
            invariant
                0 <= k <= self.aliases@.len(),
                aliases@ == self.aliases@.take(k as int),
            decreases self.aliases@.len() - k,
        {
            aliases.push((self.aliases[k].0.clone(), self.aliases[k].1.clone()));
            assert(self.aliases@.take(k + 1) == self.aliases@.take(k as int).push(self.aliases@[k as int]));
            k += 1;
        }
        assert(values@ =~= self.values@);
        assert(aliases@ =~= self.aliases@);
        let default = match &self.default {
            Some(d) => Some(d.clone()),
            None => None,
        };
        EnumTypeAttributes { values, aliases, default }
    }
}

} // verus!
