//! What the readings of entities, schemas, name tables, event keys and numbers mean.
use crate::demo;
use crate::demo::{
    ClassId, ElementKey, Entity, FieldKey, FieldValue, KeyValue, Schema, Serializer,
};
use crate::float::Float;
use crate::keys;
use crate::names::{CodeName, CodeNames, GrenadeClass, Names, Scope, WeaponInfo};
use crate::order;
use crate::resolve::PositionKeys;
use crate::text;
use vstd::arithmetic::power::pow;
use vstd::prelude::*;

verus! {

/// Whether position `i` is the first that meets a condition.
pub open spec fn is_first<T>(s: Seq<T>, p: spec_fn(T) -> bool, i: int) -> bool {
    &&& 0 <= i < s.len()
    &&& p(s[i])
    &&& forall|j: int| 0 <= j < i ==> !p(#[trigger] s[j])
}

/// Whether nothing meets a condition.
pub open spec fn is_none<T>(s: Seq<T>, p: spec_fn(T) -> bool) -> bool {
    forall|j: int| 0 <= j < s.len() ==> !p(#[trigger] s[j])
}

/// A search finds the first that meets the condition, and nothing where none does.
pub proof fn law_search_finds_first<T>(s: Seq<T>, p: spec_fn(T) -> bool, i: int)
    ensures
        is_first(s, p, i) ==> order::first_match(s, p) == Some(s[i]),
        is_none(s, p) ==> order::first_match(s, p) is None,
        order::first_match(s, p) is Some ==> exists|k: int| #[trigger]
            is_first(s, p, k) && order::first_match(s, p) == Some(s[k]),
{
    if is_first(s, p, i) {
        order::lemma_first_match(s, p, i);
    }
    if is_none(s, p) {
        order::lemma_first_match(s, p, s.len() as int);
    }
    if order::first_match(s, p) is Some {
        order::lemma_first_match_holds(s, p);
        let t = order::first_match(s, p)->0;
        let k = choose|k: int| 0 <= k < s.len() && s[k] == t;
        let f = lemma_least(s, p, k);
        order::lemma_first_match(s, p, f);
    }
}

proof fn lemma_least<T>(s: Seq<T>, p: spec_fn(T) -> bool, k: int) -> (f: int)
    requires
        0 <= k < s.len(),
        p(s[k]),
    ensures
        is_first(s, p, f),
    decreases k,
{
    if forall|j: int| 0 <= j < k ==> !p(#[trigger] s[j]) {
        k
    } else {
        let j = choose|j: int| 0 <= j < k && p(#[trigger] s[j]);
        lemma_least(s, p, j)
    }
}

/// A field of an entity reads as what is under its key, by the getter of its kind.
pub proof fn law_fields_read_as_they_are(e: Entity, k: u64)
    ensures
        e.has(Some(k)) <==> e.fields@.contains_key(k),
        e.fields@.contains_key(k) ==> match e.fields@[k] {
            FieldValue::Bool(b) => e.bool_at(Some(k)) == b,
            FieldValue::I64(v) => e.i64_at(Some(k)) == v,
            FieldValue::U64(v) => e.u64_at(Some(k)) == Some(v),
            FieldValue::U32(v) => e.u32_at(Some(k)) == v,
            FieldValue::Real(v) => e.real_at(Some(k)) == v,
            FieldValue::Handle(v) => e.handle_at(Some(k)) == Some(v),
            FieldValue::Text(v) => e.text_at(Some(k)) == Some(v@),
            FieldValue::Angles(v) => e.angles_at(Some(k)) == v,
        },
{
}

/// A field that an entity does not have, or that is of another kind, reads as nothing: unset,
/// zero or none.
pub proof fn law_other_fields_read_as_nothing(e: Entity, key: Option<u64>)
    ensures
        key is None ==> !e.has(key),
        !(e.has(key) && e.fields@[key->0] is Bool) ==> !e.bool_at(key),
        !(e.has(key) && e.fields@[key->0] is I64) ==> e.i64_at(key) == 0,
        !(e.has(key) && e.fields@[key->0] is U64) ==> e.u64_at(key) is None,
        !(e.has(key) && e.fields@[key->0] is U32) ==> e.u32_at(key) == 0,
        !(e.has(key) && e.fields@[key->0] is Real) ==> e.real_at(key).bits == 0,
        !(e.has(key) && e.fields@[key->0] is Handle) ==> e.handle_at(key) is None,
        !(e.has(key) && e.fields@[key->0] is Text) ==> e.text_at(key) is None,
        !(e.has(key) && e.fields@[key->0] is Angles) ==> e.angles_at(key).x.bits == 0
            && e.angles_at(key).y.bits == 0 && e.angles_at(key).z.bits == 0,
{
}

/// The classes of a name.
pub open spec fn serializers_of(class: Seq<char>) -> spec_fn(Serializer) -> bool {
    |s: Serializer| s.class_name@ == class
}

/// The fields of a path.
pub open spec fn fields_at(path: Seq<char>) -> spec_fn(FieldKey) -> bool {
    |f: FieldKey| f.path@ == path
}

/// The elements of an array at a path and a position.
pub open spec fn elements_at(path: Seq<char>, at: u8) -> spec_fn(ElementKey) -> bool {
    |f: ElementKey| f.path@ == path && f.at == at
}

/// The class numbers of a name.
pub open spec fn ids_of(class: Seq<char>) -> spec_fn(ClassId) -> bool {
    |c: ClassId| c.class_name@ == class
}

/// The key of a field is that of the first field of the path in the first serializer of the
/// class, and there is none where either is missing.
pub proof fn law_keys_of_fields(schema: Schema, class: Seq<char>, path: Seq<char>, i: int, j: int)
    ensures
        is_none(schema.serializers@, serializers_of(class)) ==> schema.key_of(class, path) is None
            && schema.serializer_of(class) is None,
        is_first(schema.serializers@, serializers_of(class), i) ==> {
            let fields = schema.serializers@[i].fields@;
            &&& schema.serializer_of(class) == Some(schema.serializers@[i])
            &&& is_none(fields, fields_at(path)) ==> schema.key_of(class, path) is None
            &&& is_first(fields, fields_at(path), j) ==> schema.key_of(class, path) == Some(
                fields[j].key,
            )
        },
{
    law_search_finds_first(schema.serializers@, serializers_of(class), i);
    let fields = schema.serializers@[i].fields@;
    law_search_finds_first(fields, fields_at(path), j);
    assert((|f: FieldKey| f.path@ == path) =~= fields_at(path));
    assert((|s: Serializer| s.class_name@ == class) =~= serializers_of(class));
}

/// The key of an element is that of the first element of the path and position in the first
/// serializer of the class, and there is none where either is missing.
pub proof fn law_keys_of_elements(
    schema: Schema,
    class: Seq<char>,
    path: Seq<char>,
    at: u8,
    i: int,
    j: int,
)
    ensures
        is_none(schema.serializers@, serializers_of(class)) ==> schema.element_key_of(
            class,
            path,
            at,
        ) is None,
        is_first(schema.serializers@, serializers_of(class), i) ==> {
            let elements = schema.serializers@[i].elements@;
            &&& is_none(elements, elements_at(path, at)) ==> schema.element_key_of(
                class,
                path,
                at,
            ) is None
            &&& is_first(elements, elements_at(path, at), j) ==> schema.element_key_of(
                class,
                path,
                at,
            ) == Some(elements[j].key)
        },
{
    law_search_finds_first(schema.serializers@, serializers_of(class), i);
    let elements = schema.serializers@[i].elements@;
    law_search_finds_first(elements, elements_at(path, at), j);
    assert((|f: ElementKey| f.path@ == path && f.at == at) =~= elements_at(path, at));
    assert((|s: Serializer| s.class_name@ == class) =~= serializers_of(class));
}

/// The number of a class is the first under its name, and there is none where the name is
/// missing.
pub proof fn law_class_numbers(schema: Schema, class: Seq<char>, i: int)
    ensures
        is_none(schema.classes@, ids_of(class)) ==> schema.class_id_of(class) is None,
        is_first(schema.classes@, ids_of(class), i) ==> schema.class_id_of(class) == Some(
            schema.classes@[i].id,
        ),
{
    law_search_finds_first(schema.classes@, ids_of(class), i);
    assert((|c: ClassId| c.class_name@ == class) =~= ids_of(class));
}

/// Positions are read by the keys of the origin of the skeleton: the cell and the offset in it
/// of each axis. A class without a serializer has none of them.
pub proof fn law_position_keys(schema: Schema, class: Seq<char>)
    ensures
        ({
            let keys = PositionKeys::in_class(schema, class);
            &&& keys.cell_x == schema.key_of(
                class,
                "CBodyComponent.m_skeletonInstance.m_vecOrigin.m_cellX"@,
            )
            &&& keys.cell_y == schema.key_of(
                class,
                "CBodyComponent.m_skeletonInstance.m_vecOrigin.m_cellY"@,
            )
            &&& keys.cell_z == schema.key_of(
                class,
                "CBodyComponent.m_skeletonInstance.m_vecOrigin.m_cellZ"@,
            )
            &&& keys.offset_x == schema.key_of(
                class,
                "CBodyComponent.m_skeletonInstance.m_vecOrigin.m_vecX"@,
            )
            &&& keys.offset_y == schema.key_of(
                class,
                "CBodyComponent.m_skeletonInstance.m_vecOrigin.m_vecY"@,
            )
            &&& keys.offset_z == schema.key_of(
                class,
                "CBodyComponent.m_skeletonInstance.m_vecOrigin.m_vecZ"@,
            )
        }),
{
}

/// An entity has a position where the offset of its first axis is there, and it is that of the
/// entity.
pub proof fn law_positions(keys: PositionKeys, e: Entity)
    ensures
        e.has(keys.offset_x) ==> keys.position(e) == Some(e.world),
        !e.has(keys.offset_x) ==> keys.position(e) is None,
{
}

/// A list of names holds a name where one of them is that name.
pub proof fn law_lists_of_names(names: Seq<String>, name: Seq<char>)
    ensures
        demo::lists(names, name) <==> names.map_values(|s: String| s@).contains(name),
{
    let views = names.map_values(|s: String| s@);
    if demo::lists(names, name) {
        let i = choose|i: int| 0 <= i < names.len() && #[trigger] names[i]@ == name;
        assert(views[i] == name);
    }
    if views.contains(name) {
        let i = choose|i: int| 0 <= i < views.len() && views[i] == name;
        assert(names[i]@ == name);
    }
}

/// Whether a pass over a demo decodes a class.
pub open spec fn is_decoded(scope: Scope, names: Names, class: Seq<char>) -> bool {
    let weapon = exists|i: int|
        0 <= i < names.weapons@.len() && (#[trigger] names.weapons@[i]).class_name@ == class;
    let grenade = exists|i: int|
        0 <= i < names.grenades@.len() && (#[trigger] names.grenades@[i]).class_name@ == class;
    let player = class == "CCSPlayerPawn"@ || class == "CCSPlayerController"@;
    match scope {
        Scope::All => true,
        Scope::Events => player || weapon || class == "CCSTeam"@ || class == "CPlantedC4"@,
        Scope::Snapshots => player || weapon || class == "CCSTeam"@,
        Scope::Projectiles => player || grenade || class == "CInferno"@ || class
            == "CSmokeGrenadeProjectile"@,
    }
}

/// The weapons of a class.
pub open spec fn weapons_of(class: Seq<char>) -> spec_fn(WeaponInfo) -> bool {
    |w: WeaponInfo| w.class_name@ == class
}

/// The grenades of a class.
pub open spec fn grenades_of(class: Seq<char>) -> spec_fn(GrenadeClass) -> bool {
    |g: GrenadeClass| g.class_name@ == class
}

/// The weapon of a class, and the type of a grenade class, are the first under its name.
pub proof fn law_weapons_and_grenades(names: Names, class: Seq<char>, i: int)
    ensures
        is_none(names.weapons@, weapons_of(class)) ==> names.weapon(class) is None,
        is_first(names.weapons@, weapons_of(class), i) ==> names.weapon(class) == Some(
            names.weapons@[i],
        ),
        is_none(names.grenades@, grenades_of(class)) ==> names.grenade(class) is None,
        is_first(names.grenades@, grenades_of(class), i) ==> names.grenade(class) == Some(
            names.grenades@[i].grenade_type@,
        ),
{
    law_search_finds_first(names.weapons@, weapons_of(class), i);
    law_search_finds_first(names.grenades@, grenades_of(class), i);
    assert((|w: WeaponInfo| w.class_name@ == class) =~= weapons_of(class));
    assert((|g: GrenadeClass| g.class_name@ == class) =~= grenades_of(class));
}

/// A pass over a demo decodes players and what its rows tell of, and nothing else.
pub proof fn law_passes_decode(scope: Scope, names: Names, class: Seq<char>)
    ensures
        scope.sees(names, class) == is_decoded(scope, names, class),
{
    order::lemma_first_match_holds(names.weapons@, weapons_of(class));
    order::lemma_first_match_holds(names.grenades@, grenades_of(class));
    assert((|w: WeaponInfo| w.class_name@ == class) =~= weapons_of(class));
    assert((|g: GrenadeClass| g.class_name@ == class) =~= grenades_of(class));
    if names.weapon(class) is Some {
        let w = names.weapon(class)->0;
        let i = choose|i: int| 0 <= i < names.weapons@.len() && names.weapons@[i] == w;
        assert(names.weapons@[i].class_name@ == class);
    } else {
        assert forall|i: int| 0 <= i < names.weapons@.len() implies (
        #[trigger] names.weapons@[i]).class_name@ != class by {
            assert(!weapons_of(class)(names.weapons@[i]));
        }
    }
    if names.grenade(class) is Some {
        let g = order::first_match(names.grenades@, grenades_of(class))->0;
        let i = choose|i: int| 0 <= i < names.grenades@.len() && names.grenades@[i] == g;
        assert(names.grenades@[i].class_name@ == class);
    } else {
        assert forall|i: int| 0 <= i < names.grenades@.len() implies (
        #[trigger] names.grenades@[i]).class_name@ != class by {
            assert(!grenades_of(class)(names.grenades@[i]));
        }
    }
}

/// The entries of a code.
pub open spec fn entries_of(code: i64) -> spec_fn(CodeName) -> bool {
    |c: CodeName| c.code == code
}

/// The name of a code is the first under it, and the common one where there is none.
pub proof fn law_names_of_codes(names: CodeNames, code: i64, i: int)
    ensures
        is_none(names.entries@, entries_of(code)) ==> names.name(code) == names.other@,
        is_first(names.entries@, entries_of(code), i) ==> names.name(code)
            == names.entries@[i].name@,
{
    law_search_finds_first(names.entries@, entries_of(code), i);
    assert((|c: CodeName| c.code == code) =~= entries_of(code));
}

/// The decoded entities that a handle can point at: its low 14 bits are their index.
pub open spec fn pointed_at(scope: Scope, names: Names, handle: u32) -> spec_fn(Entity) -> bool {
    |e: Entity| e.index == handle & 0x3fff && is_decoded(scope, names, e.class_name@)
}

/// The entities of a class.
pub open spec fn entities_of(class: Seq<char>) -> spec_fn(Entity) -> bool {
    |e: Entity| e.class_name@ == class
}

/// A handle leads to the first decoded entity whose index is in its low 14 bits, and nowhere
/// where there is none. No handle leads nowhere.
pub proof fn law_handles_lead(
    entities: Seq<Entity>,
    scope: Scope,
    names: Names,
    handle: u32,
    i: int,
)
    ensures
        is_none(entities, pointed_at(scope, names, handle)) ==> demo::entity_at(
            entities,
            scope,
            names,
            handle,
        ) is None,
        is_first(entities, pointed_at(scope, names, handle), i) ==> demo::entity_at(
            entities,
            scope,
            names,
            handle,
        ) == Some(entities[i]),
        demo::linked(entities, scope, names, Some(handle)) == demo::entity_at(
            entities,
            scope,
            names,
            handle,
        ),
        demo::linked(entities, scope, names, None) is None,
{
    let p = pointed_at(scope, names, handle);
    let q = |e: Entity| e.index == demo::handle_index(handle) && scope.sees(names, e.class_name@);
    assert(handle & 0x3fff == handle % 0x4000) by (bit_vector);
    assert forall|e: Entity| #[trigger] p(e) == q(e) by {
        law_passes_decode(scope, names, e.class_name@);
    }
    assert(p =~= q);
    law_search_finds_first(entities, p, i);
}

/// The first entity of a class is the first whose class has the name.
pub proof fn law_first_of_class(entities: Seq<Entity>, class: Seq<char>, i: int)
    ensures
        is_none(entities, entities_of(class)) ==> demo::first_of_class(entities, class) is None,
        is_first(entities, entities_of(class), i) ==> demo::first_of_class(entities, class) == Some(
            entities[i],
        ),
{
    law_search_finds_first(entities, entities_of(class), i);
    assert((|e: Entity| e.class_name@ == class) =~= entities_of(class));
}

/// The entries under a key.
pub open spec fn entries_under(key: Seq<char>) -> spec_fn(KeyValue) -> bool {
    |kv: KeyValue| kv.key@ == key
}

/// What an event has under a key is what its first entry under it says: as a text, as a
/// number that fits, as a flag that is set by `true` alone.
pub proof fn law_event_keys(ks: Seq<KeyValue>, key: Seq<char>, i: int)
    requires
        is_first(ks, entries_under(key), i),
    ensures
        keys::key_string(ks, key) == ks[i].value@,
        keys::key_number(ks, key) == ks[i].number,
        keys::key_bool(ks, key) <==> ks[i].value@ == "true"@,
        text::signed_value(ks[i].value@) matches Some(v) ==> {
            &&& -0x8000_0000 <= v < 0x8000_0000 ==> keys::key_i32(ks, key) == v
            &&& !(-0x8000_0000 <= v < 0x8000_0000) ==> keys::key_i32(ks, key) == 0
            &&& -0x8000_0000_0000_0000 <= v < 0x8000_0000_0000_0000 ==> keys::key_i64(ks, key) == v
            &&& !(-0x8000_0000_0000_0000 <= v < 0x8000_0000_0000_0000) ==> keys::key_i64(ks, key)
                == 0
        },
        text::signed_value(ks[i].value@) is None ==> keys::key_i32(ks, key) == 0
            && keys::key_i64(ks, key) == 0,
{
    law_search_finds_first(ks, entries_under(key), i);
    assert((|kv: KeyValue| kv.key@ == key) =~= entries_under(key));
}

/// What an event has not reads as nothing: the empty text, zero, no number, unset.
pub proof fn law_missing_event_keys(ks: Seq<KeyValue>, key: Seq<char>)
    requires
        is_none(ks, entries_under(key)),
    ensures
        keys::key_string(ks, key).len() == 0,
        keys::key_number(ks, key) is None,
        !keys::key_bool(ks, key),
        keys::key_i32(ks, key) == 0,
        keys::key_i64(ks, key) == 0,
{
    law_search_finds_first(ks, entries_under(key), 0);
    assert((|kv: KeyValue| kv.key@ == key) =~= entries_under(key));
}

/// A text writes a number where it is digits, with a sign before them or none. Then `-` makes
/// it negative, and `+` leaves it as it is.
pub proof fn law_signs(s: Seq<char>)
    ensures
        text::all_digits(s) <==> s.len() > 0 && forall|i: int|
            0 <= i < s.len() ==> '0' <= #[trigger] s[i] && s[i] <= '9',
        text::all_digits(s) ==> {
            &&& text::signed_value(s) == Some(text::digits_value(s))
            &&& text::signed_value(seq!['-'] + s) == Some(-text::digits_value(s))
            &&& text::signed_value(seq!['+'] + s) == Some(text::digits_value(s))
        },
        !text::all_digits(s) ==> {
            &&& text::signed_value(seq!['-'] + s) is None
            &&& text::signed_value(seq!['+'] + s) is None
            &&& s.len() == 0 || (s[0] != '-' && s[0] != '+') ==> text::signed_value(s) is None
        },
{
    assert((seq!['-'] + s).skip(1) =~= s);
    assert((seq!['+'] + s).skip(1) =~= s);
    if text::all_digits(s) {
        assert(text::is_digit(s[0]));
    }
    if s.len() > 0 && forall|i: int| 0 <= i < s.len() ==> '0' <= #[trigger] s[i] && s[i] <= '9' {
        assert forall|i: int| 0 <= i < s.len() implies text::is_digit(#[trigger] s[i]) by {}
    }
    if text::all_digits(s) {
        assert forall|i: int| 0 <= i < s.len() implies '0' <= #[trigger] s[i] && s[i] <= '9' by {
            assert(text::is_digit(s[i]));
        }
    }
    let minus = seq!['-'] + s;
    let plus = seq!['+'] + s;
    assert(minus[0] == '-' && plus[0] == '+');
}

/// Digits are read in base ten: each digit counts as many as its distance from `0`, and each
/// digit that follows makes what stands before it ten times as much.
pub proof fn law_base_ten(a: Seq<char>, b: Seq<char>)
    ensures
        text::digits_value(a + b) == text::digits_value(a) * pow(10, b.len()) + text::digits_value(
            b,
        ),
        a.len() == 1 ==> text::digits_value(a) == a[0] as u32 - 48,
    decreases b.len(),
{
    reveal(pow);
    if a.len() == 1 {
        assert(a.drop_last().len() == 0);
        reveal_with_fuel(text::digits_value, 2);
    }
    if b.len() == 0 {
        assert(a + b =~= a);
        assert(pow(10, 0) == 1);
        assert(text::digits_value(a) * 1 == text::digits_value(a));
    } else {
        let init = b.drop_last();
        law_base_ten(a, init);
        assert((a + b).drop_last() =~= a + init);
        assert((a + b).last() == b.last());
        let x = text::digits_value(a);
        let p = pow(10, init.len());
        assert(pow(10, b.len()) == 10 * p);
        assert(10 * (x * p) == x * (10 * p)) by (nonlinear_arith);
    }
}

/// Texts sort like words in a dictionary: by the first character in which they differ, and one
/// that another begins with comes before it.
pub proof fn law_dictionary_order(a: Seq<char>, b: Seq<char>)
    ensures
        text::text_before(a, b) <==> (exists|i: int| #[trigger] differ_first(a, b, i) && a[i]
            < b[i]) || (a.len() < b.len() && b.take(a.len() as int) == a),
    decreases a.len(),
{
    if a.len() == 0 {
        assert(b.take(0) =~= a);
    } else if b.len() > 0 {
        if a[0] != b[0] {
            assert(differ_first(a, b, 0));
            assert forall|i: int| #[trigger] differ_first(a, b, i) implies i == 0 by {
                if i > 0 {
                    assert(a[0] == b[0]);
                }
            }
            if a.len() < b.len() && b.take(a.len() as int) == a {
                assert(b.take(a.len() as int)[0] == b[0]);
            }
        } else {
            let x = a.drop_first();
            let y = b.drop_first();
            law_dictionary_order(x, y);
            if exists|i: int| #[trigger] differ_first(a, b, i) && a[i] < b[i] {
                let i = choose|i: int| #[trigger] differ_first(a, b, i) && a[i] < b[i];
                assert(i > 0);
                assert forall|j: int| 0 <= j < i - 1 implies #[trigger] x[j] == y[j] by {
                    assert(a[j + 1] == b[j + 1]);
                }
                assert(differ_first(x, y, i - 1));
            }
            if exists|i: int| #[trigger] differ_first(x, y, i) && x[i] < y[i] {
                let i = choose|i: int| #[trigger] differ_first(x, y, i) && x[i] < y[i];
                assert forall|j: int| 0 <= j < i + 1 implies #[trigger] a[j] == b[j] by {
                    if j > 0 {
                        assert(x[j - 1] == y[j - 1]);
                    }
                }
                assert(differ_first(a, b, i + 1));
            }
            if b.len() > a.len() && b.take(a.len() as int) == a {
                assert(y.take(x.len() as int) =~= x) by {
                    assert forall|j: int| 0 <= j < x.len() implies y[j] == x[j] by {
                        assert(b.take(a.len() as int)[j + 1] == b[j + 1]);
                    }
                }
            }
            if y.len() > x.len() && y.take(x.len() as int) == x {
                assert(b.take(a.len() as int) =~= a) by {
                    assert forall|j: int| 0 <= j < a.len() implies b[j] == a[j] by {
                        if j > 0 {
                            assert(y.take(x.len() as int)[j - 1] == y[j - 1]);
                        }
                    }
                }
            }
        }
    }
}

/// Whether two texts are the same up to a position and differ there.
pub open spec fn differ_first(a: Seq<char>, b: Seq<char>, i: int) -> bool {
    &&& 0 <= i < a.len()
    &&& i < b.len()
    &&& a[i] != b[i]
    &&& forall|j: int| 0 <= j < i ==> #[trigger] a[j] == b[j]
}

/// Whether a pattern has its sign bit set.
pub open spec fn is_negative(f: Float) -> bool {
    f.bits & 0x8000_0000 != 0
}

/// The pattern without its sign.
pub open spec fn magnitude(f: Float) -> u32 {
    f.bits & 0x7fff_ffff
}

proof fn lemma_bits(f: Float)
    ensures
        is_negative(f) <==> f.bits >= 0x8000_0000,
        magnitude(f) == f.bits % 0x8000_0000,
        f.bits == magnitude(f) + (if is_negative(f) {
            0x8000_0000int
        } else {
            0
        }),
{
    let b = f.bits;
    assert((b & 0x8000_0000 != 0) <==> b >= 0x8000_0000) by (bit_vector);
    assert(b & 0x7fff_ffff == b % 0x8000_0000) by (bit_vector);
    assert(b == (b & 0x7fff_ffff) + (if b & 0x8000_0000 != 0 {
        0x8000_0000u32
    } else {
        0u32
    })) by (bit_vector);
}

/// A pattern stands for no number where its exponent is all ones and its fraction is not zero.
pub proof fn law_no_number(f: Float)
    ensures
        f.is_nan() <==> f.bits & 0x7f80_0000 == 0x7f80_0000 && f.bits & 0x007f_ffff != 0,
{
    let b = f.bits;
    assert((b % 0x8000_0000 > 0x7f80_0000) <==> (b & 0x7f80_0000 == 0x7f80_0000 && b & 0x007f_ffff
        != 0)) by (bit_vector);
}

/// Numbers compare by sign and magnitude: of two positive ones the smaller magnitude is less,
/// of two negative ones the larger, and a negative one is less than a positive one unless both
/// are zero. What stands for no number is neither at most nor above anything.
pub proof fn law_numbers_compare(a: Float, b: Float)
    ensures
        a.is_nan() || b.is_nan() ==> !a.at_most(b) && !a.above(b),
        !a.is_nan() && !b.is_nan() ==> {
            &&& a.above(b) <==> !a.at_most(b)
            &&& !is_negative(a) && !is_negative(b) ==> (a.at_most(b) <==> magnitude(a)
                <= magnitude(b))
            &&& is_negative(a) && is_negative(b) ==> (a.at_most(b) <==> magnitude(a) >= magnitude(
                b,
            ))
            &&& is_negative(a) && !is_negative(b) ==> a.at_most(b)
            &&& !is_negative(a) && is_negative(b) ==> (a.at_most(b) <==> magnitude(a) == 0
                && magnitude(b) == 0)
        },
{
    lemma_bits(a);
    lemma_bits(b);
}

/// All patterns have an order of their own: negative ones come before positive ones, the
/// negative ones by falling and the positive ones by rising magnitude.
pub proof fn law_patterns_compare(a: Float, b: Float)
    ensures
        is_negative(a) && !is_negative(b) ==> a.total_rank() < b.total_rank(),
        !is_negative(a) && !is_negative(b) ==> (a.total_rank() < b.total_rank() <==> magnitude(a)
            < magnitude(b)),
        is_negative(a) && is_negative(b) ==> (a.total_rank() < b.total_rank() <==> magnitude(a)
            > magnitude(b)),
        a.total_rank() == b.total_rank() <==> a == b,
{
    lemma_bits(a);
    lemma_bits(b);
}

/// Whether positions are all those below `n`, each once.
pub open spec fn is_arrangement(order: Seq<int>, n: int) -> bool {
    &&& order.len() == n
    &&& forall|x: int| #[trigger] order.contains(x) <==> 0 <= x < n
    &&& forall|i: int, j: int| 0 <= i < j < n ==> #[trigger] order[i] != #[trigger] order[j]
}

/// A stable sort puts what there is in another order: keys never fall, and equal keys keep
/// their order.
pub proof fn law_sorting<T>(before: Seq<T>, after: Seq<T>, keys: Seq<int>)
    requires
        order::stably_sorted(before, after, keys),
        before.len() == keys.len(),
    ensures
        exists|order: Seq<int>| #[trigger]
            is_arrangement(order, before.len() as int) && after.len() == before.len() && (forall|
                i: int,
            |
                0 <= i < after.len() ==> #[trigger] after[i] == before[order[i]]) && (forall|
                i: int,
                j: int,
            |
                0 <= i < j < after.len() ==> keys[#[trigger] order[i]] <= keys[#[trigger] order[j]]
                    && (keys[order[i]] == keys[order[j]] ==> order[i] < order[j])),
{
    let order = choose|order: Seq<int>|
        #[trigger] order::is_stable_order(keys, order) && after == order::arranged(before, order);
    assert forall|x: int| #[trigger] order.contains(x) <==> 0 <= x < before.len() by {
        if 0 <= x < before.len() {
            order::lemma_order_covers(keys, order, x);
        }
    }
    assert forall|i: int, j: int| 0 <= i < j < order.len() implies #[trigger] order[i]
        != #[trigger] order[j] by {
        assert(order::comes_before(keys, order[i], order[j]));
    }
    assert forall|i: int, j: int| 0 <= i < j < after.len() implies keys[#[trigger] order[i]]
        <= keys[#[trigger] order[j]] && (keys[order[i]] == keys[order[j]] ==> order[i]
        < order[j]) by {
        assert(order::comes_before(keys, order[i], order[j]));
    }
    assert(is_arrangement(order, before.len() as int));
}

} // verus!
