//! The rules that the `Provide`, `Resolve` and `Require` derives apply to the arguments of
//! a field's helper attribute: which keys are known, which keys need a closure whose
//! first argument carries a type, which keys of one group may not stand together, and
//! which keys are not implemented yet; and the prefix that keeps the derive's own
//! generic names apart from the struct's.
//!
//! Attribute groups: filtering (`filter`, `filter_map`), mapping (`filter_map`, `map`,
//! `key`) and sorting (`sort_by`, `sort_by_key`, `sort_by_field`). Keys of different
//! groups may be combined on one field; two keys of one group may not.

use vstd::prelude::*;
use crate::text::{push_str, push_char, str_starts_with};

verus! {

/// One argument of a field's `#[provide(..)]` or `#[resolve(..)]` attribute, as the derive
/// reads it: its key and, for the keys that take a typed closure, whether the closure's
/// first argument carries a type.
#[derive(Debug, Clone, PartialEq, Eq)]
pub enum ProvideArg {
    Each,
    Filter,
    FilterMap { typed_closure: bool },
    /// The `map` key.
    MapWith { typed_closure: bool },
    Key,
    SortBy,
    SortByKey,
    SortByField,
    /// A key that the derive does not know, with its name.
    Unknown(String),
}

/// What a field's `#[provide(..)]` or `#[resolve(..)]` arguments ask for, once accepted.
#[derive(Debug, Clone, Copy, PartialEq, Eq, Structural)]
pub struct ProvideSettings {
    pub each: bool,
    pub filter: bool,
    pub map: bool,
    pub key: bool,
    pub sort_by: bool,
}

/// A group of keys of which a field may carry at most one.
pub enum ArgGroup {
    Filtering,
    Mapping,
    Sorting,
}

pub open spec fn in_group(a: ProvideArg, g: ArgGroup) -> bool {
    match g {
        ArgGroup::Filtering => a is Filter || a is FilterMap,
        ArgGroup::Mapping => a is FilterMap || a is MapWith || a is Key,
        ArgGroup::Sorting => a is SortBy || a is SortByKey || a is SortByField,
    }
}

pub open spec fn group_label(g: ArgGroup) -> Seq<char> {
    match g {
        ArgGroup::Filtering => "Filtering"@,
        ArgGroup::Mapping => "Mapping"@,
        ArgGroup::Sorting => "Sorting"@,
    }
}

/// The key of an argument as written in the attribute.
pub open spec fn arg_key(a: ProvideArg) -> Seq<char> {
    match a {
        ProvideArg::Each => "each"@,
        ProvideArg::Filter => "filter"@,
        ProvideArg::FilterMap { .. } => "filter_map"@,
        ProvideArg::MapWith { .. } => "map"@,
        ProvideArg::Key => "key"@,
        ProvideArg::SortBy => "sort_by"@,
        ProvideArg::SortByKey => "sort_by_key"@,
        ProvideArg::SortByField => "sort_by_field"@,
        ProvideArg::Unknown(n) => n@,
    }
}

/// The keys of group `g` among `args`, in the order in which they stand.
pub open spec fn group_keys(args: Seq<ProvideArg>, g: ArgGroup) -> Seq<Seq<char>>
    decreases args.len(),
{
    if args.len() == 0 {
        Seq::empty()
    } else {
        let rest = group_keys(args.drop_last(), g);
        if in_group(args.last(), g) {
            rest.push(arg_key(args.last()))
        } else {
            rest
        }
    }
}

/// The keys joined by `", "`.
pub open spec fn join_keys(keys: Seq<Seq<char>>) -> Seq<char>
    decreases keys.len(),
{
    if keys.len() == 0 {
        Seq::empty()
    } else if keys.len() == 1 {
        keys[0]
    } else {
        join_keys(keys.drop_last()) + ", "@ + keys.last()
    }
}

pub open spec fn exclusive_message(g: ArgGroup, keys: Seq<Seq<char>>) -> Seq<char> {
    group_label(g) + " attributes ("@ + join_keys(keys) + ") are mutually exclusive."@
}

/// Whether the argument takes a closure and that closure's first argument has no type.
pub open spec fn untyped_closure(a: ProvideArg) -> bool {
    match a {
        ProvideArg::FilterMap { typed_closure } => !typed_closure,
        ProvideArg::MapWith { typed_closure } => !typed_closure,
        _ => false,
    }
}

pub open spec fn unsupported_message(attr: Seq<char>) -> Seq<char> {
    "unsupported "@ + attr + " attribute"@
}

pub open spec fn untyped_closure_message(attr: Seq<char>) -> Seq<char> {
    "This attribute requires a closure with an explicitly typed argument. \nExample: `#["@
        + attr + "(map = |x: SourceType| ...)]`"@
}

/// The error that reading one argument of attribute `attr` gives, if any.
pub open spec fn parse_error(a: ProvideArg, attr: Seq<char>) -> Option<Seq<char>> {
    if a is Unknown {
        Some(unsupported_message(attr))
    } else if untyped_closure(a) {
        Some(untyped_closure_message(attr))
    } else {
        None
    }
}

/// The error of the first argument, in order, that cannot be read.
pub open spec fn first_parse_error(args: Seq<ProvideArg>, attr: Seq<char>) -> Option<Seq<char>>
    decreases args.len(),
{
    if args.len() == 0 {
        None
    } else if first_parse_error(args.drop_last(), attr) is Some {
        first_parse_error(args.drop_last(), attr)
    } else {
        parse_error(args.last(), attr)
    }
}

pub open spec fn has_filter_map(args: Seq<ProvideArg>) -> bool {
    exists|i: int| 0 <= i < args.len() && args[i] is FilterMap
}

pub open spec fn has_sort_by_key(args: Seq<ProvideArg>) -> bool {
    exists|i: int| 0 <= i < args.len() && args[i] is SortByKey
}

pub open spec fn has_sort_by_field(args: Seq<ProvideArg>) -> bool {
    exists|i: int| 0 <= i < args.len() && args[i] is SortByField
}

/// The refusal for a key that is not implemented yet, checked in the order
/// `filter_map`, `sort_by_key`, `sort_by_field`.
pub open spec fn not_implemented(args: Seq<ProvideArg>) -> Option<Seq<char>> {
    if has_filter_map(args) {
        Some("The `filter_map` attribute is not yet implemented."@)
    } else if has_sort_by_key(args) {
        Some("The `sort_by_key` attribute is not yet implemented."@)
    } else if has_sort_by_field(args) {
        Some("The `sort_by_field` attribute is not yet implemented."@)
    } else {
        None
    }
}

pub open spec fn settings_of(args: Seq<ProvideArg>) -> ProvideSettings {
    ProvideSettings {
        each: exists|i: int| 0 <= i < args.len() && args[i] is Each,
        filter: exists|i: int| 0 <= i < args.len() && args[i] is Filter,
        map: exists|i: int| 0 <= i < args.len() && args[i] is MapWith,
        key: exists|i: int| 0 <= i < args.len() && args[i] is Key,
        sort_by: exists|i: int| 0 <= i < args.len() && args[i] is SortBy,
    }
}

/// Two keys or more of one group.
pub open spec fn group_repeated(args: Seq<ProvideArg>) -> bool {
    ||| group_keys(args, ArgGroup::Filtering).len() > 1
    ||| group_keys(args, ArgGroup::Mapping).len() > 1
    ||| group_keys(args, ArgGroup::Sorting).len() > 1
}

/// Whether a field with these arguments is refused.
pub open spec fn args_refused(args: Seq<ProvideArg>) -> bool {
    ||| exists|i: int| 0 <= i < args.len() && args[i] is Unknown
    ||| exists|i: int| 0 <= i < args.len() && untyped_closure(args[i])
    ||| group_repeated(args)
    ||| not_implemented(args) is Some
}

/// The outcome of reading the arguments of attribute `attr`: the first unreadable argument
/// stops the reading; then the groups are checked in the order filtering, mapping,
/// sorting; then the keys that are not implemented yet.
pub open spec fn field_check(args: Seq<ProvideArg>, attr: Seq<char>) -> Result<ProvideSettings, Seq<char>> {
    if first_parse_error(args, attr) is Some {
        Err(first_parse_error(args, attr)->0)
    } else if group_keys(args, ArgGroup::Filtering).len() > 1 {
        Err(exclusive_message(ArgGroup::Filtering, group_keys(args, ArgGroup::Filtering)))
    } else if group_keys(args, ArgGroup::Mapping).len() > 1 {
        Err(exclusive_message(ArgGroup::Mapping, group_keys(args, ArgGroup::Mapping)))
    } else if group_keys(args, ArgGroup::Sorting).len() > 1 {
        Err(exclusive_message(ArgGroup::Sorting, group_keys(args, ArgGroup::Sorting)))
    } else if not_implemented(args) is Some {
        Err(not_implemented(args)->0)
    } else {
        Ok(settings_of(args))
    }
}

pub open spec fn key_views(v: Seq<&str>) -> Seq<Seq<char>> {
    v.map_values(|s: &str| s@)
}

proof fn lemma_first_error_stays(s: Seq<ProvideArg>, k: int, attr: Seq<char>)
    requires
        0 <= k <= s.len(),
        first_parse_error(s.take(k), attr) is Some,
    ensures
        first_parse_error(s, attr) == first_parse_error(s.take(k), attr),
    decreases s.len() - k,
{
    if k < s.len() {
        assert(s.take(k + 1).drop_last() =~= s.take(k));
        lemma_first_error_stays(s, k + 1, attr);
    } else {
        assert(s.take(k) =~= s);
    }
}

proof fn lemma_no_parse_error(s: Seq<ProvideArg>, attr: Seq<char>)
    ensures
        first_parse_error(s, attr) is None <==> (forall|i: int|
            0 <= i < s.len() ==> parse_error(#[trigger] s[i], attr) is None),
    decreases s.len(),
{
    if s.len() > 0 {
        let d = s.drop_last();
        lemma_no_parse_error(d, attr);
        assert(forall|i: int| 0 <= i < d.len() ==> d[i] == s[i]);
        if first_parse_error(s, attr) is None {
            assert forall|i: int| 0 <= i < s.len() implies parse_error(#[trigger] s[i], attr) is None by {
                if i < d.len() {
                    assert(d[i] == s[i]);
                }
            }
        } else {
            if first_parse_error(d, attr) is Some {
                let j = choose|j: int| 0 <= j < d.len() && parse_error(#[trigger] d[j], attr) is Some;
                assert(s[j] == d[j]);
            } else {
                assert(parse_error(s[s.len() - 1], attr) is Some);
            }
        }
    }
}

proof fn lemma_refused(args: Seq<ProvideArg>, attr: Seq<char>)
    ensures
        field_check(args, attr) is Err <==> args_refused(args),
{
    lemma_no_parse_error(args, attr);
    if first_parse_error(args, attr) is Some {
        let j = choose|j: int| 0 <= j < args.len() && parse_error(#[trigger] args[j], attr) is Some;
        assert(args[j] is Unknown || untyped_closure(args[j]));
    }
    if args_refused(args) && first_parse_error(args, attr) is None {
        if exists|i: int| 0 <= i < args.len() && args[i] is Unknown {
            let j = choose|j: int| 0 <= j < args.len() && args[j] is Unknown;
            assert(parse_error(args[j], attr) is Some);
        }
        if exists|i: int| 0 <= i < args.len() && untyped_closure(args[i]) {
            let j = choose|j: int| 0 <= j < args.len() && untyped_closure(args[j]);
            assert(parse_error(args[j], attr) is Some);
        }
    }
}

/// The key of an argument whose key the derive knows.
fn known_key(a: &ProvideArg) -> (r: &'static str)
    requires
        !(a is Unknown),
    ensures
        r@ == arg_key(*a),
{
    match a {
        ProvideArg::Each => "each",
        ProvideArg::Filter => "filter",
        ProvideArg::FilterMap { .. } => "filter_map",
        ProvideArg::MapWith { .. } => "map",
        ProvideArg::Key => "key",
        ProvideArg::SortBy => "sort_by",
        ProvideArg::SortByKey => "sort_by_key",
        ProvideArg::SortByField => "sort_by_field",
        ProvideArg::Unknown(_) => "",
    }
}

/// The keys joined by `", "`.
fn join_key_list(keys: &Vec<&str>) -> (r: String)
    ensures
        r@ == join_keys(key_views(keys@)),
{
    let mut r = String::new();
    let mut i: usize = 0;
    while i < keys.len()
        invariant
            i <= keys.len(),
            r@ == join_keys(key_views(keys@).take(i as int)),
        decreases keys.len() - i,
    {
        let ghost ks = key_views(keys@);
        assert(ks.take(i + 1).drop_last() =~= ks.take(i as int));
        if i > 0 {
            push_str(&mut r, ", ");
        } else {
            assert(ks.take(0) =~= Seq::<Seq<char>>::empty());
        }
        push_str(&mut r, keys[i]);
        proof {
            if i == 0 {
                assert(r@ =~= ks.take(1)[0]);
            }
        }
        i = i + 1;
    }
    assert(key_views(keys@).take(keys.len() as int) =~= key_views(keys@));
    r
}

fn exclusive_string(label: &str, keys: &Vec<&str>) -> (r: String)
    ensures
        r@ == label@ + " attributes ("@ + join_keys(key_views(keys@)) + ") are mutually exclusive."@,
{
    let mut r = String::from_str(label);
    push_str(&mut r, " attributes (");
    let joined = join_key_list(keys);
    push_str(&mut r, joined.as_str());
    push_str(&mut r, ") are mutually exclusive.");
    r
}

fn unsupported_string(attr: &str) -> (r: String)
    ensures
        r@ == unsupported_message(attr@),
{
    let mut r = String::from_str("unsupported ");
    push_str(&mut r, attr);
    push_str(&mut r, " attribute");
    r
}

fn untyped_closure_string(attr: &str) -> (r: String)
    ensures
        r@ == untyped_closure_message(attr@),
{
    let mut r = String::from_str(
        "This attribute requires a closure with an explicitly typed argument. \nExample: `#[",
    );
    push_str(&mut r, attr);
    push_str(&mut r, "(map = |x: SourceType| ...)]`");
    r
}

/// Reads the arguments of attribute `attr` in order and applies the group and
/// not-implemented rules.
#[verifier::rlimit(40)]
fn check_field_args(args: &Vec<ProvideArg>, attr: &str) -> (r: Result<ProvideSettings, String>)
    ensures
        match r {
            Ok(s) => field_check(args@, attr@) == Ok::<ProvideSettings, Seq<char>>(s),
            Err(m) => field_check(args@, attr@) == Err::<ProvideSettings, Seq<char>>(m@),
        },
{
    let mut each = false;
    let mut filter = false;
    let mut filter_map = false;
    let mut map = false;
    let mut key = false;
    let mut sort_by = false;
    let mut sort_by_key = false;
    let mut sort_by_field = false;
    let mut filtering: Vec<&str> = Vec::new();
    let mut mapping: Vec<&str> = Vec::new();
    let mut sorting: Vec<&str> = Vec::new();
    let mut i: usize = 0;
    while i < args.len()
        invariant
            i <= args.len(),
            first_parse_error(args@.take(i as int), attr@) is None,
            key_views(filtering@) == group_keys(args@.take(i as int), ArgGroup::Filtering),
            key_views(mapping@) == group_keys(args@.take(i as int), ArgGroup::Mapping),
            key_views(sorting@) == group_keys(args@.take(i as int), ArgGroup::Sorting),
            each == (exists|j: int| 0 <= j < i && args@[j] is Each),
            filter == (exists|j: int| 0 <= j < i && args@[j] is Filter),
            filter_map == (exists|j: int| 0 <= j < i && args@[j] is FilterMap),
            map == (exists|j: int| 0 <= j < i && args@[j] is MapWith),
            key == (exists|j: int| 0 <= j < i && args@[j] is Key),
            sort_by == (exists|j: int| 0 <= j < i && args@[j] is SortBy),
            sort_by_key == (exists|j: int| 0 <= j < i && args@[j] is SortByKey),
            sort_by_field == (exists|j: int| 0 <= j < i && args@[j] is SortByField),
        decreases args.len() - i,
    {
        let ghost pre = args@.take(i as int);
        let ghost next = args@.take(i + 1);
        let ghost old_f = filtering@;
        let ghost old_m = mapping@;
        let ghost old_s = sorting@;
        assert(next.drop_last() =~= pre);
        assert(next.last() == args@[i as int]);
        let a = &args[i];
        if let ProvideArg::Unknown(_) = a {
            proof {
                lemma_first_error_stays(args@, i + 1, attr@);
            }
            return Err(unsupported_string(attr));
        }
        let untyped = match a {
            ProvideArg::FilterMap { typed_closure } => !*typed_closure,
            ProvideArg::MapWith { typed_closure } => !*typed_closure,
            _ => false,
        };
        if untyped {
            proof {
                lemma_first_error_stays(args@, i + 1, attr@);
            }
            return Err(untyped_closure_string(attr));
        }
        let k = known_key(a);
        match a {
            ProvideArg::Each => {
                each = true;
            },
            ProvideArg::Filter => {
                filter = true;
                filtering.push(k);
            },
            ProvideArg::FilterMap { .. } => {
                filter_map = true;
                filtering.push(k);
                mapping.push(k);
            },
            ProvideArg::MapWith { .. } => {
                map = true;
                mapping.push(k);
            },
            ProvideArg::Key => {
                key = true;
                mapping.push(k);
            },
            ProvideArg::SortBy => {
                sort_by = true;
                sorting.push(k);
            },
            ProvideArg::SortByKey => {
                sort_by_key = true;
                sorting.push(k);
            },
            ProvideArg::SortByField => {
                sort_by_field = true;
                sorting.push(k);
            },
            ProvideArg::Unknown(_) => {},
        }
        proof {
            let x = args@[i as int];
            if in_group(x, ArgGroup::Filtering) {
                assert(key_views(filtering@) =~= key_views(old_f).push(arg_key(x)));
            } else {
                assert(filtering@ == old_f);
            }
            if in_group(x, ArgGroup::Mapping) {
                assert(key_views(mapping@) =~= key_views(old_m).push(arg_key(x)));
            } else {
                assert(mapping@ == old_m);
            }
            if in_group(x, ArgGroup::Sorting) {
                assert(key_views(sorting@) =~= key_views(old_s).push(arg_key(x)));
            } else {
                assert(sorting@ == old_s);
            }
        }
        i = i + 1;
    }
    assert(args@.take(args.len() as int) =~= args@);
    if filtering.len() > 1 {
        return Err(exclusive_string("Filtering", &filtering));
    }
    if mapping.len() > 1 {
        return Err(exclusive_string("Mapping", &mapping));
    }
    if sorting.len() > 1 {
        return Err(exclusive_string("Sorting", &sorting));
    }
    if filter_map {
        return Err(String::from_str("The `filter_map` attribute is not yet implemented."));
    }
    if sort_by_key {
        return Err(String::from_str("The `sort_by_key` attribute is not yet implemented."));
    }
    if sort_by_field {
        return Err(String::from_str("The `sort_by_field` attribute is not yet implemented."));
    }
    Ok(ProvideSettings { each, filter, map, key, sort_by })
}

/// Checks the arguments of a field's `#[provide(..)]` attributes, in the order in which
/// they stand, and gives what they ask for or the derive's error message.
pub fn check_provide_args(args: &Vec<ProvideArg>) -> (r: Result<ProvideSettings, String>)
    ensures
        match r {
            Ok(s) => field_check(args@, "provide"@) == Ok::<ProvideSettings, Seq<char>>(s),
            Err(m) => field_check(args@, "provide"@) == Err::<ProvideSettings, Seq<char>>(m@),
        },
        r is Err <==> args_refused(args@),
        r matches Ok(s) ==> s == settings_of(args@),
{
    proof {
        lemma_refused(args@, "provide"@);
    }
    check_field_args(args, "provide")
}

/// Checks the arguments of a field's `#[resolve(..)]` attributes, in the order in which
/// they stand, and gives what they ask for or the derive's error message.
pub fn check_resolve_args(args: &Vec<ProvideArg>) -> (r: Result<ProvideSettings, String>)
    ensures
        match r {
            Ok(s) => field_check(args@, "resolve"@) == Ok::<ProvideSettings, Seq<char>>(s),
            Err(m) => field_check(args@, "resolve"@) == Err::<ProvideSettings, Seq<char>>(m@),
        },
        r is Err <==> args_refused(args@),
        r matches Ok(s) ==> s == settings_of(args@),
{
    proof {
        lemma_refused(args@, "resolve"@);
    }
    check_field_args(args, "resolve")
}

/// One argument of a field's `#[require(..)]` attribute, as the derive reads it.
#[derive(Debug, Clone, PartialEq, Eq)]
pub enum RequireArg {
    Filter,
    Each,
    /// A key that the derive does not know, with its name.
    Unknown(String),
}

/// What a field's `#[require(..)]` arguments ask for, once accepted.
#[derive(Debug, Clone, Copy, PartialEq, Eq, Structural)]
pub struct RequireSettings {
    pub filter: bool,
    pub each: bool,
}

/// Checks the arguments of a field's `#[require(..)]` attributes: every key must be
/// `filter` or `each`; the first other key is refused.
pub fn check_require_args(args: &Vec<RequireArg>) -> (r: Result<RequireSettings, String>)
    ensures
        r is Err <==> exists|i: int| 0 <= i < args@.len() && args@[i] is Unknown,
        r matches Err(m) ==> m@ == "unsupported require attribute"@,
        r matches Ok(s) ==> s == (RequireSettings {
            filter: exists|i: int| 0 <= i < args@.len() && args@[i] is Filter,
            each: exists|i: int| 0 <= i < args@.len() && args@[i] is Each,
        }),
{
    let mut filter = false;
    let mut each = false;
    let mut i: usize = 0;
    while i < args.len()
        invariant
            i <= args.len(),
            forall|j: int| 0 <= j < i ==> !(args@[j] is Unknown),
            filter == (exists|j: int| 0 <= j < i && args@[j] is Filter),
            each == (exists|j: int| 0 <= j < i && args@[j] is Each),
        decreases args.len() - i,
    {
        match &args[i] {
            RequireArg::Filter => {
                filter = true;
            },
            RequireArg::Each => {
                each = true;
            },
            RequireArg::Unknown(_) => {
                return Err(String::from_str("unsupported require attribute"));
            },
        }
        i = i + 1;
    }
    Ok(RequireSettings { filter, each })
}

/// `n` underscores.
pub open spec fn underscores(n: nat) -> Seq<char> {
    Seq::new(n, |i: int| '_')
}

/// Whether some name begins with `p`.
pub open spec fn prefix_taken(names: Seq<String>, p: Seq<char>) -> bool {
    exists|i: int| 0 <= i < names.len() && p.is_prefix_of(#[trigger] names[i]@)
}

spec fn longest(names: Seq<String>) -> nat
    decreases names.len(),
{
    if names.len() == 0 {
        0
    } else {
        let rest = longest(names.drop_last());
        if names.last()@.len() > rest {
            names.last()@.len()
        } else {
            rest
        }
    }
}

proof fn lemma_longest(names: Seq<String>, i: int)
    requires
        0 <= i < names.len(),
    ensures
        names[i]@.len() <= longest(names),
    decreases names.len(),
{
    if i < names.len() - 1 {
        assert(names.drop_last()[i] == names[i]);
        lemma_longest(names.drop_last(), i);
    }
}

/// Whether some name begins with `p`.
fn any_name_starts_with(names: &Vec<String>, p: &str) -> (r: bool)
    ensures
        r == prefix_taken(names@, p@),
{
    let mut i: usize = 0;
    while i < names.len()
        invariant
            i <= names.len(),
            forall|j: int| 0 <= j < i ==> !p@.is_prefix_of(#[trigger] names@[j]@),
        decreases names.len() - i,
    {
        if str_starts_with(names[i].as_str(), p) {
            return true;
        }
        i = i + 1;
    }
    false
}

/// The prefix for the derive's own generic names: at least three underscores, one more
/// for as long as some name of the struct's generics begins with it.
pub fn find_hygiene_prefix(names: &Vec<String>) -> (r: String)
    ensures
        r@.len() >= 3,
        r@ == underscores(r@.len()),
        !prefix_taken(names@, r@),
        r@.len() == 3 || prefix_taken(names@, underscores((r@.len() - 1) as nat)),
{
    let mut prefix = String::from_str("___");
    proof {
        reveal_strlit("___");
        assert(prefix@ =~= underscores(3));
    }
    let ghost bound = longest(names@);
    while any_name_starts_with(names, prefix.as_str())
        invariant
            prefix@.len() >= 3,
            prefix@ == underscores(prefix@.len()),
            prefix@.len() == 3 || prefix_taken(names@, underscores((prefix@.len() - 1) as nat)),
            bound == longest(names@),
        decreases bound + 1 - prefix@.len(),
    {
        let ghost before = prefix@;
        proof {
            let j = choose|j: int| 0 <= j < names@.len() && before.is_prefix_of(#[trigger] names@[j]@);
            lemma_longest(names@, j);
        }
        push_char(&mut prefix, '_');
        proof {
            assert(prefix@ =~= underscores(prefix@.len()));
            assert(before =~= underscores((prefix@.len() - 1) as nat));
        }
    }
    prefix
}

} // verus!
