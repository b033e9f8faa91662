//! The list of colos, as a status page gives it.
//!
//! Among the components of the page are the colos. Their names end in the code
//! of the colo, as in `Sydney, NSW, Australia - (SYD)`.

use crate::snapshot::{colo_views, text_of, ColoEntry, ColoView};
use crate::text::{same, trim, trimmed};
use crate::textmap::TextMap;
use vstd::prelude::*;

verus! {

/// The name of the region that a group of the status page stands for.
pub open spec fn group_name(id: Seq<char>) -> Seq<char> {
    if id == "00gpj4s37mz4"@ {
        "Africa"@
    } else if id == "77867vxkttgw"@ {
        "Asia"@
    } else if id == "zqxhg7y54vy8"@ {
        "Europe"@
    } else if id == "91blz4ztt7dm"@ {
        "LatinAmericaCaribbean"@
    } else if id == "m3639x4txd08"@ {
        "MiddleEast"@
    } else if id == "4l01sk5cdn5c"@ {
        "NorthAmerica"@
    } else if id == "q6qm6fvkst4h"@ {
        "Oceania"@
    } else {
        "Unknown"@
    }
}

/// The name of the region that a group of the status page stands for. It is
/// informational: where to place an object is decided by measured latency.
pub fn cf_group_name(id: &str) -> (r: &'static str)
    ensures
        r@ == group_name(id@),
{
    if same(id, "00gpj4s37mz4") {
        "Africa"
    } else if same(id, "77867vxkttgw") {
        "Asia"
    } else if same(id, "zqxhg7y54vy8") {
        "Europe"
    } else if same(id, "91blz4ztt7dm") {
        "LatinAmericaCaribbean"
    } else if same(id, "m3639x4txd08") {
        "MiddleEast"
    } else if same(id, "4l01sk5cdn5c") {
        "NorthAmerica"
    } else if same(id, "q6qm6fvkst4h") {
        "Oceania"
    } else {
        "Unknown"
    }
}

/// The characters of a colo code: `A` to `Z` and `0` to `9`.
pub open spec fn is_code_char(c: char) -> bool {
    'A' <= c <= 'Z' || '0' <= c <= '9'
}

/// Three characters that make up a colo code.
pub open spec fn is_code(s: Seq<char>) -> bool {
    s.len() == 3 && is_code_char(s[0]) && is_code_char(s[1]) && is_code_char(s[2])
}

/// A component name that ends in a colo code in brackets.
pub open spec fn has_code_suffix(name: Seq<char>) -> bool {
    &&& name.len() >= 5
    &&& name[name.len() - 5] == '('
    &&& is_code(name.subrange(name.len() - 4, name.len() - 1))
    &&& name[name.len() - 1] == ')'
}

/// The mark ` - ` stands at place `i`.
pub open spec fn dash_at(s: Seq<char>, i: int) -> bool {
    0 <= i && i + 3 <= s.len() && s[i] == ' ' && s[i + 1] == '-' && s[i + 2] == ' '
}

/// What stands before the last mark ` - ` that begins before place `end`, if there
/// is one.
pub open spec fn before_dash(s: Seq<char>, end: int) -> Option<Seq<char>>
    decreases end,
{
    if end <= 0 {
        None
    } else if dash_at(s, end - 1) {
        Some(s.take(end - 1))
    } else {
        before_dash(s, end - 1)
    }
}

/// The place named by a component whose name ends in a code in brackets: what
/// stands before the last mark ` - ` or, without a mark, before the code in its
/// brackets.
pub open spec fn base_name(name: Seq<char>) -> Seq<char>
    recommends
        has_code_suffix(name),
{
    match before_dash(name, name.len() as int) {
        Some(base) => base,
        None => name.take(name.len() - 5),
    }
}

/// The code and the place in the name of a status page component.
pub open spec fn code_and_base(name: Seq<char>) -> Option<(Seq<char>, Seq<char>)> {
    if has_code_suffix(name) {
        Some((name.subrange(name.len() - 4, name.len() - 1), base_name(name)))
    } else {
        None
    }
}

fn code_char(c: char) -> (r: bool)
    ensures
        r == is_code_char(c),
{
    ('A' <= c && c <= 'Z') || ('0' <= c && c <= '9')
}

/// Takes the trailing `(XYZ)` code off the name of a status page component, and
/// gives the code and the place that is named before it.
pub fn parse_iata_suffix(name: &str) -> (r: Option<(&str, &str)>)
    ensures
        match r {
            Some((code, base)) => code_and_base(name@) == Some((code@, base@)),
            None => code_and_base(name@) is None,
        },
{
    let n: usize = name.unicode_len();
    if n < 5 || name.get_char(n - 1) != ')' || name.get_char(n - 5) != '(' {
        return None;
    }
    let ghost code = name@.subrange(n - 4, n - 1);
    assert(code[0] == name@[n - 4] && code[1] == name@[n - 3] && code[2] == name@[n - 2]);
    if !code_char(name.get_char(n - 4)) || !code_char(name.get_char(n - 3)) || !code_char(
        name.get_char(n - 2),
    ) {
        return None;
    }
    Some((name.substring_char(n - 4, n - 1), base_of(name)))
}

fn base_of(name: &str) -> (r: &str)
    requires
        name@.len() >= 5,
    ensures
        r@ == base_name(name@),
{
    let n: usize = name.unicode_len();
    let mut end: usize = n;
    while end > 0
        invariant
            end <= n,
            n == name@.len(),
            before_dash(name@, n as int) == before_dash(name@, end as int),
        decreases end,
    {
        let i: usize = end - 1;
        if n - i >= 3 && name.get_char(i) == ' ' && name.get_char(i + 1) == '-' && name.get_char(i + 2)
            == ' ' {
            return name.substring_char(0, i);
        }
        end = i;
    }
    name.substring_char(0, n - 5)
}

/// The components of the status page.
#[derive(Debug)]
pub struct ComponentsResponse {
    pub components: Vec<ComponentItem>,
}

/// One component of the status page.
#[derive(Debug)]
pub struct ComponentItem {
    pub name: String,
    /// The component stands for a group of others.
    pub group: bool,
    /// The group that the component belongs to.
    pub group_id: Option<String>,
}

/// The content of a `ComponentItem`.
pub struct ItemView {
    pub name: Seq<char>,
    pub group: bool,
    pub group_id: Option<Seq<char>>,
}

impl View for ComponentItem {
    type V = ItemView;

    open spec fn view(&self) -> ItemView {
        ItemView { name: self.name@, group: self.group, group_id: text_of(self.group_id) }
    }
}

impl View for ComponentsResponse {
    type V = Seq<ItemView>;

    open spec fn view(&self) -> Seq<ItemView> {
        Seq::new(self.components@.len(), |i: int| self.components@[i]@)
    }
}

/// The colo that a component stands for. A group is none, nor is a component
/// without a group or without a code in its name.
pub open spec fn colo_of_component(item: ItemView) -> Option<ColoView> {
    if item.group {
        None
    } else {
        match (item.group_id, code_and_base(item.name)) {
            (Some(id), Some((code, base))) => Some(
                ColoView {
                    code,
                    name: trimmed(base),
                    cf_region: group_name(id),
                    nearest_region: None,
                    regions: Map::empty(),
                },
            ),
            _ => None,
        }
    }
}

/// The colos among the components, in their order.
pub open spec fn colos_of_components(items: Seq<ItemView>) -> Seq<ColoView> {
    items.filter_map(|item: ItemView| colo_of_component(item))
}

fn colo_from_item(item: &ComponentItem) -> (r: Option<ColoEntry>)
    ensures
        match r {
            Some(c) => colo_of_component(item@) == Some(c@),
            None => colo_of_component(item@) is None,
        },
{
    if item.group {
        return None;
    }
    match &item.group_id {
        None => None,
        Some(group_id) => match parse_iata_suffix(item.name.as_str()) {
            None => None,
            Some((code, base)) => Some(
                ColoEntry {
                    code: code.to_owned(),
                    name: trim(base).to_owned(),
                    cf_region: cf_group_name(group_id.as_str()).to_owned(),
                    nearest_region: None,
                    regions: TextMap::new(),
                },
            ),
        },
    }
}

/// The colos among the components of the status page, in their order.
pub fn extract_from_components(c: &ComponentsResponse) -> (r: Vec<ColoEntry>)
    ensures
        colo_views(r@) == colos_of_components(c@),
{
    let mut r: Vec<ColoEntry> = Vec::new();
    let mut i: usize = 0;
    let ghost items = c@;
    let ghost f = |item: ItemView| colo_of_component(item);
    assert(items.take(0).filter_map(f) =~= Seq::<ColoView>::empty());
    assert(colo_views(r@) =~= Seq::<ColoView>::empty());
    while i < c.components.len()
        invariant
            i <= c.components@.len(),
            items == c@,
            f == (|item: ItemView| colo_of_component(item)),
            colo_views(r@) == items.take(i as int).filter_map(f),
        decreases c.components@.len() - i,
    {
        let ghost before = r@;
        proof {
            items.lemma_filter_map_take_succ(f, i as int);
        }
        match colo_from_item(&c.components[i]) {
            Some(colo) => {
                r.push(colo);
                assert(colo_views(r@) =~= colo_views(before) + seq![colo@]);
            },
            None => {},
        }
        i = i + 1;
    }
    assert(items.take(i as int) =~= items);
    r
}

/// A name made of a place, the mark and a code in brackets is read back as that
/// code and that place.
pub proof fn suffix_is_read_back(base: Seq<char>, code: Seq<char>)
    requires
        is_code(code),
    ensures
        code_and_base(base + seq![' ', '-', ' ', '('] + code + seq![')']) == Some((code, base)),
{
    let name = base + seq![' ', '-', ' ', '('] + code + seq![')'];
    let n = name.len() as int;
    assert(name.subrange(n - 4, n - 1) =~= code);
    let at = base.len() as int;
    assert(dash_at(name, at));
    assert(name.take(at) =~= base);
    assert(is_code_char(name[n - 4]) && is_code_char(name[n - 3]) && is_code_char(name[n - 2]));
    assert(before_dash(name, at + 1) == Some(base));
    last_dash(name, at, n);
}

/// No mark between two places: the same stands before the last one.
pub(crate) proof fn last_dash(s: Seq<char>, at: int, end: int)
    requires
        0 <= at < end,
        forall|i: int| at < i < end ==> !dash_at(s, i),
    ensures
        before_dash(s, end) == before_dash(s, at + 1),
    decreases end,
{
    if at + 1 < end {
        assert(!dash_at(s, end - 1));
        last_dash(s, at, end - 1);
    }
}

/// Without a mark, what stands before the code in its brackets is read back.
pub proof fn bare_suffix_is_read_back(base: Seq<char>, code: Seq<char>)
    requires
        is_code(code),
        forall|i: int| !dash_at(base, i),
    ensures
        code_and_base(base + seq!['('] + code + seq![')']) == Some((code, base)),
{
    let name = base + seq!['('] + code + seq![')'];
    let n = name.len() as int;
    assert(name.subrange(n - 4, n - 1) =~= code);
    assert(name.take(n - 5) =~= base);
    assert(is_code_char(name[n - 4]) && is_code_char(name[n - 3]) && is_code_char(name[n - 2]));
    assert forall|i: int| 0 <= i < n implies !dash_at(name, i) by {
        if dash_at(name, i) {
            assert(dash_at(base, i));
        }
    }
    no_dash(name, n);
}

/// No mark: nothing stands before one.
pub(crate) proof fn no_dash(s: Seq<char>, end: int)
    requires
        forall|i: int| 0 <= i < end ==> !dash_at(s, i),
    ensures
        before_dash(s, end) is None,
    decreases end,
{
    if end > 0 {
        assert(!dash_at(s, end - 1));
        no_dash(s, end - 1);
    }
}

/// The base of a name is the start of what stands before the code in its brackets.
pub proof fn base_stands_before_the_suffix(name: Seq<char>)
    requires
        has_code_suffix(name),
    ensures
        base_name(name).is_prefix_of(name.take(name.len() - 5)),
{
    let n = name.len() as int;
    let code = name.subrange(n - 4, n - 1);
    assert(code[0] == name[n - 4] && code[1] == name[n - 3] && code[2] == name[n - 2]);
    dash_before(name, n);
}

proof fn dash_before(s: Seq<char>, end: int)
    requires
        s.len() >= 5,
        end <= s.len(),
        forall|i: int| s.len() - 5 <= i < s.len() ==> #[trigger] s[i] != ' ',
    ensures
        before_dash(s, end) matches Some(base) ==> base.is_prefix_of(s.take(s.len() - 5)),
    decreases end,
{
    if end > 0 {
        if dash_at(s, end - 1) {
            assert(s[end + 1] == ' ');
            assert(s.take(end - 1) =~= s.take(s.len() - 5).take(end - 1));
        } else {
            dash_before(s, end - 1);
        }
    }
}

} // verus!
