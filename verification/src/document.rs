use crate::error::AnimError;
use crate::keys::{PositionKey, RotationKey, END_OF_ANIMATION};
use crate::model::{Animation, HeaderView, JointData};
use vstd::prelude::*;

verus! {

broadcast use vstd::map::group_map_axioms;

/// A value of a pose document, as far as an import looks at it. `F` is the
/// type of a real number.
///
/// A table is a map from text to values. It holds its entries in the order in
/// which they are to be imported; a key stands for its first entry.
#[derive(Debug)]
pub enum Document<F> {
    Boolean(bool),
    Real(F),
    Array(Vec<Document<F>>),
    Table(Vec<(String, Document<F>)>),
    /// Any value of another kind.
    Other,
}

/// The value of the first entry under `key`.
pub open spec fn lookup<F>(entries: Seq<(String, Document<F>)>, key: Seq<char>) -> Option<
    Document<F>,
>
    decreases entries.len(),
{
    if entries.len() == 0 {
        None
    } else if entries[0].0@ == key {
        Some(entries[0].1)
    } else {
        lookup(entries.drop_first(), key)
    }
}

/// The real number at place `i` of an array; zero where there is no such
/// place or no real number stands there.
pub open spec fn component<F>(items: Seq<Document<F>>, i: int, zero: F) -> F {
    if 0 <= i < items.len() {
        match items[i] {
            Document::Real(x) => x,
            _ => zero,
        }
    } else {
        zero
    }
}

/// The first three numbers of the array under `key`; nothing where no array
/// stands there.
pub open spec fn triple<F>(entries: Seq<(String, Document<F>)>, key: Seq<char>, zero: F) -> Option<
    (F, F, F),
> {
    match lookup(entries, key) {
        Some(Document::Array(items)) => Some(
            (component(items@, 0, zero), component(items@, 1, zero), component(items@, 2, zero)),
        ),
        _ => None,
    }
}

/// The entry describes a joint that is switched on: `enabled` is the boolean
/// `true`.
pub open spec fn switched_on<F>(entries: Seq<(String, Document<F>)>) -> bool {
    lookup(entries, "enabled"@) matches Some(Document::Boolean(on)) && on
}

/// The entry is imported: its value is a table, and where only joints that are
/// switched on are wanted, it is switched on.
pub open spec fn included<F>(value: Document<F>, check_enabled: bool) -> bool {
    value matches Document::Table(inner) && (check_enabled ==> switched_on(inner@))
}

/// The test by which entries are imported.
pub open spec fn importing<F>(check_enabled: bool) -> spec_fn((String, Document<F>)) -> bool {
    |e: (String, Document<F>)| included(e.1, check_enabled)
}

/// `joint` is what an import makes of `entry`: the entry's name, priority 0,
/// a rotation key at the end of the animation where the entry has an array
/// `rotation`, made of its roll, pitch and yaw by `to_rot`, and a position key
/// likewise from `position` by `to_pos`.
pub open spec fn joint_of<
    F,
    R,
    P,
    FR: Fn(F, F, F) -> R,
    FP: Fn(F, F, F) -> P,
>(
    joint: JointData<R, P>,
    entry: (String, Document<F>),
    zero: F,
    to_rot: FR,
    to_pos: FP,
) -> bool {
    &&& entry.1 matches Document::Table(inner)
    &&& joint.name@ == entry.0@
    &&& joint.priority == 0
    &&& match triple(inner@, "rotation"@, zero) {
        Some((roll, pitch, yaw)) => {
            &&& joint.rotation_keys@.len() == 1
            &&& joint.rotation_keys@[0].time == END_OF_ANIMATION
            &&& call_ensures(to_rot, (roll, pitch, yaw), joint.rotation_keys@[0].rot)
        },
        None => joint.rotation_keys@.len() == 0,
    }
    &&& match triple(inner@, "position"@, zero) {
        Some((x, y, z)) => {
            &&& joint.position_keys@.len() == 1
            &&& joint.position_keys@[0].time == END_OF_ANIMATION
            &&& call_ensures(to_pos, (x, y, z), joint.position_keys@[0].pos)
        },
        None => joint.position_keys@.len() == 0,
    }
}

/// `joints` is what an import makes of `entries`: one joint for each entry
/// that is imported, in their order.
pub open spec fn imported<F, R, P, FR: Fn(F, F, F) -> R, FP: Fn(F, F, F) -> P>(
    joints: Seq<JointData<R, P>>,
    entries: Seq<(String, Document<F>)>,
    check_enabled: bool,
    zero: F,
    to_rot: FR,
    to_pos: FP,
) -> bool {
    let kept = entries.filter(importing::<F>(check_enabled));
    &&& joints.len() == kept.len()
    &&& forall|i: int|
        0 <= i < joints.len() ==> joint_of(#[trigger] joints[i], kept[i], zero, to_rot, to_pos)
}

/// The text of the failure for a document that is no table.
pub open spec fn not_a_map() -> Seq<char> {
    "LLSD must be a map"@
}

/// The value of the first entry under `key`.
pub fn find<'a, F>(entries: &'a Vec<(String, Document<F>)>, key: &str) -> (found: Option<
    &'a Document<F>,
>)
    ensures
        match found {
            Some(v) => lookup(entries@, key@) == Some(*v),
            None => lookup(entries@, key@) is None,
        },
{
    let wanted = key.to_owned();
    let mut i: usize = 0;
    assert(entries@.skip(0) == entries@);
    while i < entries.len()
        invariant
            i <= entries@.len(),
            wanted@ == key@,
            lookup(entries@, key@) == lookup(entries@.skip(i as int), key@),
        decreases entries.len() - i,
    {
        let ghost rest = entries@.skip(i as int);
        assert(rest[0] == entries@[i as int]);
        if entries[i].0 == wanted {
            return Some(&entries[i].1);
        }
        assert(rest.drop_first() =~= entries@.skip(i as int + 1));
        i += 1;
    }
    assert(entries@.skip(i as int).len() == 0);
    None
}

/// The real number at place `i` of an array, or `zero`.
fn number<F: Copy>(items: &Vec<Document<F>>, i: usize, zero: F) -> (x: F)
    ensures
        x == component(items@, i as int, zero),
{
    if i < items.len() {
        match &items[i] {
            Document::Real(x) => *x,
            _ => zero,
        }
    } else {
        zero
    }
}

/// The first three numbers of the array under `key`.
fn numbers<F: Copy>(entries: &Vec<(String, Document<F>)>, key: &str, zero: F) -> (r: Option<
    (F, F, F),
>)
    ensures
        r == triple(entries@, key@, zero),
{
    match find(entries, key) {
        Some(Document::Array(items)) => Some(
            (number(items, 0, zero), number(items, 1, zero), number(items, 2, zero)),
        ),
        _ => None,
    }
}

/// The entry describes a joint that is switched on.
fn is_switched_on<F>(entries: &Vec<(String, Document<F>)>) -> (on: bool)
    ensures
        on == switched_on(entries@),
{
    match find(entries, "enabled") {
        Some(Document::Boolean(on)) => *on,
        _ => false,
    }
}

/// What a parsed value holds, a real number as the bit pattern of a double.
/// A table is a map from text to what its values hold: its entries have no
/// order.
pub enum Held {
    Boolean(bool),
    Real(u64),
    Array(Seq<Held>),
    Table(Map<Seq<char>, Held>),
    /// Any value of another kind.
    Other,
}

/// `entries` lists the map `held`: each key of the map once and no other,
/// each with a document that lists what the map holds under it.
pub open spec fn lists_table(entries: Seq<(String, Document<u64>)>, held: Map<Seq<char>, Held>) -> bool
    decreases held, 0nat,
{
    &&& held.dom().finite()
    &&& forall|i: int, j: int|
        0 <= i < j < entries.len() ==> (#[trigger] entries[i]).0@ != (#[trigger] entries[j]).0@
    &&& forall|k: Seq<char>|
        #[trigger] held.dom().contains(k) ==> exists|i: int|
            0 <= i < entries.len() && (#[trigger] entries[i]).0@ == k
    &&& forall|i: int|
        0 <= i < entries.len() ==> held.dom().contains((#[trigger] entries[i]).0@) && lists(
            entries[i].1,
            held[entries[i].0@],
        )
}

/// `doc` lists what `held` is: the same value, the entries of every table in
/// some order.
pub open spec fn lists(doc: Document<u64>, held: Held) -> bool
    decreases held, 1nat,
{
    match held {
        Held::Boolean(b) => doc matches Document::Boolean(x) && x == b,
        Held::Real(bits) => doc matches Document::Real(x) && x == bits,
        Held::Array(items) => doc matches Document::Array(v) && v@.len() == items.len() && forall|
            i: int,
        | 0 <= i < items.len() ==> lists(#[trigger] v@[i], items[i]),
        Held::Table(map) => doc matches Document::Table(entries) && lists_table(entries@, map),
        Held::Other => doc is Other,
    }
}

/// The real number at place `i` of what an array holds; zero where there is
/// no such place or no real number stands there.
pub open spec fn held_component(items: Seq<Held>, i: int) -> u64 {
    if 0 <= i < items.len() {
        match items[i] {
            Held::Real(x) => x,
            _ => 0,
        }
    } else {
        0
    }
}

/// The first three numbers of the array that a map holds under `key`;
/// nothing where it holds no array there.
pub open spec fn held_triple(held: Map<Seq<char>, Held>, key: Seq<char>) -> Option<(u64, u64, u64)> {
    if held.dom().contains(key) {
        match held[key] {
            Held::Array(items) => Some(
                (held_component(items, 0), held_component(items, 1), held_component(items, 2)),
            ),
            _ => None,
        }
    } else {
        None
    }
}

/// The map holds the boolean `true` under `enabled`.
pub open spec fn held_switched_on(held: Map<Seq<char>, Held>) -> bool {
    held.dom().contains("enabled"@) && held["enabled"@] == Held::Boolean(true)
}

/// What is found under a key is the first entry of that key.
proof fn lemma_lookup<F>(entries: Seq<(String, Document<F>)>, key: Seq<char>)
    ensures
        match lookup(entries, key) {
            Some(v) => exists|i: int|
                0 <= i < entries.len() && (#[trigger] entries[i]).0@ == key && entries[i].1 == v,
            None => forall|i: int| 0 <= i < entries.len() ==> (#[trigger] entries[i]).0@ != key,
        },
    decreases entries.len(),
{
    if entries.len() > 0 {
        if entries[0].0@ != key {
            let rest = entries.drop_first();
            lemma_lookup(rest, key);
            match lookup(rest, key) {
                Some(v) => {
                    let i = choose|i: int|
                        0 <= i < rest.len() && (#[trigger] rest[i]).0@ == key && rest[i].1 == v;
                    assert(entries[i + 1] == rest[i]);
                },
                None => {
                    assert forall|i: int| 0 <= i < entries.len() implies (#[trigger] entries[i]).0@
                        != key by {
                        if i > 0 {
                            assert(entries[i] == rest[i - 1]);
                        }
                    }
                },
            }
        }
    }
}

/// What an import reads of a listing does not depend on the order of the
/// listing: the numbers under a key and the switch are those that the map
/// holds.
pub proof fn lemma_listing_reads(
    entries: Seq<(String, Document<u64>)>,
    held: Map<Seq<char>, Held>,
    key: Seq<char>,
)
    requires
        lists_table(entries, held),
    ensures
        triple(entries, key, 0u64) == held_triple(held, key),
        switched_on(entries) == held_switched_on(held),
{
    lemma_found_lists(entries, held, key);
    lemma_found_lists(entries, held, "enabled"@);
    if held.dom().contains(key) {
        let doc = lookup(entries, key)->Some_0;
        match held[key] {
            Held::Array(items) => {
                match doc {
                    Document::Array(v) => {
                        assert(held_component(items, 0) == component(v@, 0, 0u64)) by {
                            if items.len() > 0 {
                                assert(lists(v@[0], items[0]));
                            }
                        }
                        assert(held_component(items, 1) == component(v@, 1, 0u64)) by {
                            if items.len() > 1 {
                                assert(lists(v@[1], items[1]));
                            }
                        }
                        assert(held_component(items, 2) == component(v@, 2, 0u64)) by {
                            if items.len() > 2 {
                                assert(lists(v@[2], items[2]));
                            }
                        }
                    },
                    _ => {},
                }
            },
            _ => {},
        }
    }
}

/// What is found under a key in a listing lists what the map holds under
/// that key, and nothing is found under a key that the map does not hold.
proof fn lemma_found_lists(
    entries: Seq<(String, Document<u64>)>,
    held: Map<Seq<char>, Held>,
    key: Seq<char>,
)
    requires
        lists_table(entries, held),
    ensures
        held.dom().contains(key) <==> lookup(entries, key) is Some,
        held.dom().contains(key) ==> lists(lookup(entries, key)->Some_0, held[key]),
{
    lemma_lookup(entries, key);
    match lookup(entries, key) {
        Some(v) => {
            let i = choose|i: int|
                0 <= i < entries.len() && (#[trigger] entries[i]).0@ == key && entries[i].1 == v;
            assert(held.dom().contains(entries[i].0@));
        },
        None => {
            if held.dom().contains(key) {
                let i = choose|i: int| 0 <= i < entries.len() && (#[trigger] entries[i]).0@ == key;
                assert(entries[i].0@ != key);
            }
        },
    }
}

/// A value as `llsd_rs` parses it. What it holds has the name
/// [`llsd_holds`].
#[verifier::external_type_specification]
#[verifier::external_body]
pub struct ExLlsd(llsd_rs::Llsd);

/// What a value of `llsd_rs` holds: its booleans, real numbers, arrays and
/// maps as they are, every value of another kind as [`Held::Other`].
pub uninterp spec fn llsd_holds(llsd: llsd_rs::Llsd) -> Held;

/// What `llsd_rs::xml::from_slice` makes of a text: what the parsed value
/// holds, or the words of the failure.
pub uninterp spec fn xml_outcome(xml: Seq<u8>) -> Result<Held, Seq<char>>;

/// Hands out what a value of `llsd_rs` holds, by its variants: a boolean, a
/// real number (as the bit pattern of a double), an array and a map go over
/// as they are, every other value as [`Document::Other`]. The entries of a map
/// come in the order in which the map is walked, which is not fixed; each key
/// comes once, since a map holds a key once. So the document lists what the
/// value holds, and no more is claimed than that.
#[verifier::external_body]
fn document_of(llsd: &llsd_rs::Llsd) -> (doc: Document<u64>)
    ensures
        lists(doc, llsd_holds(*llsd)),
{
    match llsd {
        llsd_rs::Llsd::Boolean(b) => Document::Boolean(*b),
        llsd_rs::Llsd::Real(x) => Document::Real(x.to_bits()),
        llsd_rs::Llsd::Array(items) => Document::Array(items.iter().map(document_of).collect()),
        llsd_rs::Llsd::Map(entries) => Document::Table(
            entries.iter().map(|(key, value)| (key.clone(), document_of(value))).collect(),
        ),
        _ => Document::Other,
    }
}

/// Parses LLSD-XML with `llsd_rs::xml::from_slice`. Whether it fails, with
/// what words, and what the parsed value holds depend on the text alone.
#[verifier::external_body]
fn parse_xml(xml: &[u8]) -> (r: Result<llsd_rs::Llsd, String>)
    ensures
        match r {
            Ok(llsd) => xml_outcome(xml@) == Ok::<Held, Seq<char>>(llsd_holds(llsd)),
            Err(why) => xml_outcome(xml@) == Err::<Held, Seq<char>>(why@),
        },
{
    llsd_rs::xml::from_slice(xml).map_err(|e| e.to_string())
}

/// `r` is what an import makes of a parsed value that holds `held`. A value
/// that is no map is refused. Of a map the animation has the blank header, no
/// constraints, and the joints that [`Animation::from_document`] makes of
/// some listing of the map, real numbers being bit patterns and a missing
/// number the bit pattern of zero.
pub open spec fn import_of<R, P, FR: Fn(u64, u64, u64) -> R, FP: Fn(u64, u64, u64) -> P>(
    r: Result<Animation<R, P>, AnimError>,
    held: Held,
    check_enabled: bool,
    to_rot: FR,
    to_pos: FP,
) -> bool {
    match held {
        Held::Table(map) => {
            &&& r matches Ok(a)
            &&& a.header@ == HeaderView::blank()
            &&& a.constraints@.len() == 0
            &&& exists|entries: Seq<(String, Document<u64>)>|
                lists_table(entries, map) && imported(
                    a.joints@,
                    entries,
                    check_enabled,
                    0u64,
                    to_rot,
                    to_pos,
                )
        },
        _ => r matches Err(AnimError::InvalidStructure(why)) && why@ == not_a_map(),
    }
}

impl<R, P> Animation<R, P> {
    /// Makes an animation of a pose document as `llsd_rs` parsed it. Real
    /// numbers reach `to_rot` and `to_pos` as the bit patterns of doubles, a
    /// missing number as the bit pattern of zero.
    ///
    /// Fails exactly where the value is no map. The entries of a map are
    /// imported in the order in which the map is walked, so the joints come
    /// in the order of some listing of the map; what is made of a listing is
    /// said by [`Animation::from_document`].
    pub fn from_llsd<FR: Fn(u64, u64, u64) -> R, FP: Fn(u64, u64, u64) -> P>(
        llsd: &llsd_rs::Llsd,
        check_enabled: bool,
        to_rot: FR,
        to_pos: FP,
    ) -> (r: Result<Self, AnimError>)
        requires
            forall|a: u64, b: u64, c: u64| call_requires(to_rot, (a, b, c)),
            forall|a: u64, b: u64, c: u64| call_requires(to_pos, (a, b, c)),
        ensures
            r is Err <==> !(llsd_holds(*llsd) is Table),
            import_of(r, llsd_holds(*llsd), check_enabled, to_rot, to_pos),
    {
        let doc = document_of(llsd);
        let r = Animation::from_document(&doc, check_enabled, 0u64, to_rot, to_pos);
        proof {
            let held = llsd_holds(*llsd);
            assert(lists(doc, held));
            match held {
                Held::Table(map) => {
                    assert(doc is Table);
                    match doc {
                        Document::Table(entries) => {
                            assert(lists_table(entries@, map));
                            assert(r is Ok);
                            assert(imported(
                                r->Ok_0.joints@,
                                entries@,
                                check_enabled,
                                0u64,
                                to_rot,
                                to_pos,
                            ));
                        },
                        _ => {},
                    }
                },
                Held::Boolean(_) => {
                    assert(!(doc is Table));
                },
                Held::Real(_) => {
                    assert(!(doc is Table));
                },
                Held::Array(_) => {
                    assert(!(doc is Table));
                },
                Held::Other => {
                    assert(!(doc is Table));
                },
            }
        }
        r
    }

    /// Makes an animation of the LLSD-XML text of a pose document. Where the
    /// parser fails, the failure carries the parser's words; else the result
    /// is what [`Animation::from_llsd`] makes of the parsed value.
    pub fn from_llsd_xml<FR: Fn(u64, u64, u64) -> R, FP: Fn(u64, u64, u64) -> P>(
        xml: &[u8],
        check_enabled: bool,
        to_rot: FR,
        to_pos: FP,
    ) -> (r: Result<Self, AnimError>)
        requires
            forall|a: u64, b: u64, c: u64| call_requires(to_rot, (a, b, c)),
            forall|a: u64, b: u64, c: u64| call_requires(to_pos, (a, b, c)),
        ensures
            match xml_outcome(xml@) {
                Ok(held) => import_of(r, held, check_enabled, to_rot, to_pos),
                Err(why) => r matches Err(AnimError::Llsd(words)) && words@ == why,
            },
    {
        match parse_xml(xml) {
            Ok(llsd) => Animation::from_llsd(&llsd, check_enabled, to_rot, to_pos),
            Err(why) => Err(AnimError::Llsd(why)),
        }
    }

    /// Makes an animation of a pose document: the blank header, no
    /// constraints, and one joint for each entry of the document that is
    /// imported, in their order.
    ///
    /// The document must be a table from the names of joints to tables. An
    /// entry whose value is no table is passed over, and with `check_enabled` so is
    /// one that is not switched on. `zero` stands for a number that is
    /// missing; `to_rot` makes an orientation of roll, pitch and yaw, `to_pos`
    /// an offset of x, y and z.
    pub fn from_document<F: Copy, FR: Fn(F, F, F) -> R, FP: Fn(F, F, F) -> P>(
        llsd: &Document<F>,
        check_enabled: bool,
        zero: F,
        to_rot: FR,
        to_pos: FP,
    ) -> (r: Result<Self, AnimError>)
        requires
            forall|a: F, b: F, c: F| call_requires(to_rot, (a, b, c)),
            forall|a: F, b: F, c: F| call_requires(to_pos, (a, b, c)),
        ensures
            match r {
                Ok(a) => {
                    &&& *llsd matches Document::Table(entries)
                    &&& a.header@ == HeaderView::blank()
                    &&& a.constraints@.len() == 0
                    &&& imported(a.joints@, entries@, check_enabled, zero, to_rot, to_pos)
                },
                Err(e) => {
                    &&& !(*llsd is Table)
                    &&& e matches AnimError::InvalidStructure(why)
                    &&& why@ == not_a_map()
                },
            },
    {
        let entries = match llsd {
            Document::Table(entries) => entries,
            _ => {
                return Err(AnimError::InvalidStructure("LLSD must be a map".to_owned()));
            },
        };
        let mut animation: Animation<R, P> = Animation::default();
        assert(animation@.joints.len() == animation.joints@.len());
        assert(animation@.constraints.len() == animation.constraints@.len());
        let ghost keep = importing::<F>(check_enabled);
        let mut i: usize = 0;
        assert(entries@.take(0).filter(keep) =~= Seq::empty()) by {
            reveal(Seq::filter);
        }
        while i < entries.len()
            invariant
                i <= entries@.len(),
                keep == importing::<F>(check_enabled),
                forall|a: F, b: F, c: F| call_requires(to_rot, (a, b, c)),
                forall|a: F, b: F, c: F| call_requires(to_pos, (a, b, c)),
                animation.header@ == HeaderView::blank(),
                animation.constraints@.len() == 0,
                animation.joints@.len() == entries@.take(i as int).filter(keep).len(),
                forall|k: int|
                    0 <= k < animation.joints@.len() ==> joint_of(
                        #[trigger] animation.joints@[k],
                        entries@.take(i as int).filter(keep)[k],
                        zero,
                        to_rot,
                        to_pos,
                    ),
            decreases entries.len() - i,
        {
            let ghost before = animation.joints@;
            let ghost kept = entries@.take(i as int).filter(keep);
            proof {
                assert(entries@.take(i as int + 1) == entries@.take(i as int).push(
                    entries@[i as int],
                ));
                entries@.take(i as int).lemma_filter_push(entries@[i as int], keep);
            }
            match &entries[i].1 {
                Document::Table(inner) => {
                    if !check_enabled || is_switched_on(inner) {
                        let mut rotation_keys: Vec<RotationKey<R>> = Vec::new();
                        match numbers(inner, "rotation", zero) {
                            Some((roll, pitch, yaw)) => {
                                let rot = to_rot(roll, pitch, yaw);
                                rotation_keys.push(RotationKey { time: END_OF_ANIMATION, rot });
                            },
                            None => {},
                        }
                        let mut position_keys: Vec<PositionKey<P>> = Vec::new();
                        match numbers(inner, "position", zero) {
                            Some((x, y, z)) => {
                                let pos = to_pos(x, y, z);
                                position_keys.push(PositionKey { time: END_OF_ANIMATION, pos });
                            },
                            None => {},
                        }
                        let joint = JointData {
                            name: entries[i].0.clone(),
                            priority: 0,
                            rotation_keys,
                            position_keys,
                        };
                        assert(joint_of(joint, entries@[i as int], zero, to_rot, to_pos));
                        animation.joints.push(joint);
                        proof {
                            let now = entries@.take(i as int + 1).filter(keep);
                            assert(now == kept.push(entries@[i as int]));
                            assert forall|k: int|
                                0 <= k < animation.joints@.len() implies joint_of(
                                #[trigger] animation.joints@[k],
                                now[k],
                                zero,
                                to_rot,
                                to_pos,
                            ) by {
                                if k < before.len() {
                                    assert(animation.joints@[k] == before[k]);
                                    assert(now[k] == kept[k]);
                                }
                            }
                        }
                    }
                },
                _ => {},
            }
            i += 1;
        }
        assert(entries@.take(i as int) == entries@);
        Ok(animation)
    }
}

} // verus!
