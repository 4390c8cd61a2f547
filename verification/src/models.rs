//! The model catalog: one merged `/v1/models` answer across every provider,
//! served from cache so a harness polling its catalog costs no rate budget.
//!
//! Two things make this more than a passthrough. The proxy fronts several
//! providers, so a forwarded request would return whichever provider happened
//! to win the lane and hide the rest; the catalogs are merged instead. And
//! aliases are real routable names that exist only here, so they belong in the
//! catalog — otherwise a harness listing models never discovers them.

use vstd::prelude::*;

use crate::config::Alias;
use crate::json;
use crate::json::{Json, JsonView};
use crate::pool;
use crate::reply;
use crate::table;
use crate::table::Table;
use crate::text;

verus! {

/// A provider's catalog as last seen, with when it was fetched.
struct Entry {
    fetched: u128,
    models: Vec<Json>,
}

/// A provider's catalog as last seen, with when it was fetched.
pub struct Listing {
    pub fetched: u128,
    pub models: Seq<JsonView>,
}

pub struct Catalog {
    ttl_secs: u64,
    entries: Table<String, Entry>,
}

/// The id of a catalog entry.
pub open spec fn id_of(entry: JsonView) -> Option<Seq<char>> {
    json::str_of(json::field(entry, "id"@))
}

/// Does a catalog list the model `id`?
pub open spec fn lists(models: Seq<JsonView>, id: Seq<char>) -> bool {
    exists|i: int| 0 <= i < models.len() && id_of(#[trigger] models[i]) == Some(id)
}

/// Is a catalog fetched at `fetched` still fresh at `now`?
pub open spec fn is_fresh(fetched: u128, ttl_secs: u64, now: u128) -> bool {
    ttl_secs > 0 && now - fetched < ttl_secs * pool::SECOND
}

fn copies(v: &Vec<Json>) -> (r: Vec<Json>)
    ensures
        json::views(r@) == json::views(v@),
{
    let mut out: Vec<Json> = Vec::new();
    let mut i: usize = 0;
    while i < v.len()
        invariant
            i <= v@.len(),
            out@.len() == i,
            forall|j: int| 0 <= j < i ==> (#[trigger] out@[j])@ == v@[j]@,
        decreases v@.len() - i,
    {
        out.push(v[i].dup());
        i += 1;
    }
    assert(json::views(out@) =~= json::views(v@));
    out
}

/// Does a catalog list the model `id`?
pub fn has_model(models: &Vec<Json>, id: &str) -> (r: bool)
    ensures
        r == lists(json::views(models@), id@),
{
    let ghost all = json::views(models@);
    let mut i: usize = 0;
    while i < models.len()
        invariant
            i <= models@.len(),
            all == json::views(models@),
            forall|j: int| 0 <= j < i ==> id_of(#[trigger] all[j]) != Some(id@),
        decreases models@.len() - i,
    {
        assert(all[i as int] == models@[i as int]@);
        match models[i].str_at("id") {
            Some(s) => {
                if text::same_text(s, id) {
                    assert(id_of(all[i as int]) == Some(id@));
                    return true;
                }
            },
            None => {},
        }
        i += 1;
    }
    false
}

impl Catalog {
    /// What is known of the provider `p`.
    pub closed spec fn listing(&self, p: Seq<char>) -> Option<Listing> {
        match table::get(self.entries@, p) {
            Some(e) => Some(Listing { fetched: e.fetched, models: json::views(e.models@) }),
            None => None,
        }
    }

    pub closed spec fn ttl(&self) -> u64 {
        self.ttl_secs
    }

    pub closed spec fn wf(&self) -> bool {
        self.entries.wf()
    }

    pub fn new(ttl_secs: u64) -> (r: Self)
        ensures
            r.wf(),
            r.ttl() == ttl_secs,
            forall|p: Seq<char>| #[trigger] r.listing(p) is None,
    {
        let r = Catalog { ttl_secs, entries: Table::new() };
        assert forall|p: Seq<char>| #[trigger] r.listing(p) is None by {
            table::lemma_at(r.entries@, p);
        }
        r
    }

    /// Change how long a catalog is trusted, effective on the next lookup.
    pub fn set_ttl_secs(&mut self, secs: u64)
        ensures
            final(self).ttl() == secs,
            old(self).wf() ==> final(self).wf(),
            forall|p: Seq<char>| #[trigger] final(self).listing(p) == old(self).listing(p),
    {
        self.ttl_secs = secs;
    }

    /// The provider's catalog if it is still fresh.
    pub fn fresh(&self, provider: &str, now: u128) -> (r: Option<Vec<Json>>)
        ensures
            match r {
                Some(models) => self.listing(provider@) matches Some(l) && is_fresh(
                    l.fetched,
                    self.ttl(),
                    now,
                ) && json::views(models@) == l.models,
                None => match self.listing(provider@) {
                    Some(l) => !is_fresh(l.fetched, self.ttl(), now),
                    None => true,
                },
            },
    {
        match self.entries.get_text(provider) {
            Some(e) => {
                let ttl: u128 = self.ttl_secs as u128 * pool::SECOND;
                if ttl > 0 && (now <= e.fetched || now - e.fetched < ttl) {
                    Some(copies(&e.models))
                } else {
                    None
                }
            },
            None => None,
        }
    }

    /// The provider's catalog at any age.
    ///
    /// A model catalog is near-static, so a stale answer is overwhelmingly
    /// likely to be correct and is certainly more useful than an error. Losing
    /// the catalog is enough to make a harness look broken at startup, so an
    /// upstream blip should not be able to cause that.
    pub fn stale(&self, provider: &str) -> (r: Option<Vec<Json>>)
        ensures
            match r {
                Some(models) => self.listing(provider@) matches Some(l) && json::views(models@)
                    == l.models,
                None => self.listing(provider@) is None,
            },
    {
        match self.entries.get_text(provider) {
            Some(e) => Some(copies(&e.models)),
            None => None,
        }
    }

    /// Which providers list `model` in their catalog, sorted for a stable plan.
    ///
    /// Routing a model to a provider that doesn't serve it spends a rate slot to
    /// earn a 404, then fails over — so with more than one provider configured
    /// the catalog is the difference between one clean call and a tour of every
    /// key you own.
    pub fn providers_offering(&self, model: &str) -> (r: Vec<String>)
        requires
            self.wf(),
        ensures
            text::in_order(text::texts(r@)),
            forall|p: Seq<char>| #[trigger]
                text::texts(r@).contains(p) <==> (self.listing(p) matches Some(l) && lists(
                    l.models,
                    model@,
                )),
    {
        let ghost all = self.entries@;
        let rows = self.entries.rows();
        let mut names: Vec<String> = Vec::new();
        let mut i: usize = 0;
        while i < rows.len()
            invariant
                i <= rows@.len(),
                rows@.len() == all.len(),
                table::distinct(all),
                forall|j: int| 0 <= j < rows@.len() ==> #[trigger] table::row_view(rows@[j]) == all[j],
                text::in_order(text::texts(names@)),
                forall|p: Seq<char>| #[trigger]
                    text::texts(names@).contains(p) <==> exists|j: int|
                        0 <= j < i && (#[trigger] all[j]).0 == p && lists(
                            json::views(all[j].1.models@),
                            model@,
                        ),
            decreases rows@.len() - i,
        {
            let row = &rows[i];
            assert(table::row_view(*row) == all[i as int]);
            let ghost was = text::texts(names@);
            let offers = has_model(&row.1.models, model);
            if offers {
                assert(!was.contains(row.0@)) by {
                    if was.contains(row.0@) {
                        let j = choose|j: int|
                            0 <= j < i && (#[trigger] all[j]).0 == row.0@ && lists(
                                json::views(all[j].1.models@),
                                model@,
                            );
                        assert(all[j].0 != all[i as int].0);
                    }
                }
                text::file_name(&mut names, row.0.clone());
            }
            i += 1;
            proof {
                assert forall|p: Seq<char>| #[trigger]
                    text::texts(names@).contains(p) <==> exists|j: int|
                        0 <= j < i && (#[trigger] all[j]).0 == p && lists(
                            json::views(all[j].1.models@),
                            model@,
                        ) by {
                    let k = i as int - 1;
                    if was.contains(p) {
                        let j = choose|j: int|
                            0 <= j < k && (#[trigger] all[j]).0 == p && lists(
                                json::views(all[j].1.models@),
                                model@,
                            );
                        assert(all[j].0 == p);
                    }
                    if offers && p == all[k].0 {
                        assert(all[k].0 == p);
                    }
                    if exists|j: int|
                        0 <= j < i && (#[trigger] all[j]).0 == p && lists(
                            json::views(all[j].1.models@),
                            model@,
                        ) {
                        let j = choose|j: int|
                            0 <= j < i && (#[trigger] all[j]).0 == p && lists(
                                json::views(all[j].1.models@),
                                model@,
                            );
                        if j < k {
                            assert(was.contains(p));
                        }
                    }
                }
            }
        }
        proof {
            assert forall|p: Seq<char>| #[trigger]
                text::texts(names@).contains(p) <==> (self.listing(p) matches Some(l) && lists(
                    l.models,
                    model@,
                )) by {
                table::lemma_at(all, p);
                if text::texts(names@).contains(p) {
                    let j = choose|j: int|
                        0 <= j < all.len() && (#[trigger] all[j]).0 == p && lists(
                            json::views(all[j].1.models@),
                            model@,
                        );
                    table::lemma_at_row(all, j);
                }
            }
        }
        names
    }

    pub fn put(&mut self, provider: &str, models: Vec<Json>, now: u128)
        requires
            old(self).wf(),
        ensures
            final(self).wf(),
            final(self).ttl() == old(self).ttl(),
            final(self).listing(provider@) == Some(
                (Listing { fetched: now, models: json::views(models@) }),
            ),
            forall|p: Seq<char>|
                p != provider@ ==> #[trigger] final(self).listing(p) == old(self).listing(p),
    {
        let e = Entry { fetched: now, models };
        proof {
            table::law_put_then_get(self.entries@, provider@, e);
        }
        self.entries.insert(text::owned(provider), e);
    }
}

/// Pull the `data` array out of an OpenAI-shaped catalog response.
pub fn extract(body: &Json) -> (r: Vec<Json>)
    ensures
        json::views(r@) == match json::items_of(json::field(body@, "data"@)) {
            Some(items) => items,
            None => Seq::empty(),
        },
{
    match body.array_at("data") {
        Some(items) => copies(items),
        None => {
            let r: Vec<Json> = Vec::new();
            assert(json::views(r@) =~= Seq::<JsonView>::empty());
            r
        },
    }
}

// --- Merging -----------------------------------------------------------------

/// The catalog entry of a virtual model.
pub open spec fn alias_entry(name: Seq<char>) -> JsonView {
    JsonView::Obj(
        seq![
            ("id"@, JsonView::Str(name)),
            ("object"@, JsonView::Str("model"@)),
            ("owned_by"@, JsonView::Str("sluice"@)),
        ],
    )
}

/// The entries with those of the virtual models `names` added, each name once.
pub open spec fn with_aliases(data: Seq<JsonView>, names: Seq<Seq<char>>) -> Seq<JsonView>
    decreases names.len(),
{
    if names.len() == 0 {
        data
    } else {
        let rest = with_aliases(data, names.drop_last());
        if lists(rest, names.last()) {
            rest
        } else {
            rest.push(alias_entry(names.last()))
        }
    }
}

/// The entries with those of one provider added: those that have an id that is not
/// listed yet.
pub open spec fn with_entries(data: Seq<JsonView>, entries: Seq<JsonView>) -> Seq<JsonView>
    decreases entries.len(),
{
    if entries.len() == 0 {
        data
    } else {
        let rest = with_entries(data, entries.drop_last());
        match id_of(entries.last()) {
            Some(id) => if lists(rest, id) {
                rest
            } else {
                rest.push(entries.last())
            },
            None => rest,
        }
    }
}

pub open spec fn with_catalogs(data: Seq<JsonView>, catalogs: Seq<Seq<JsonView>>) -> Seq<JsonView>
    decreases catalogs.len(),
{
    if catalogs.len() == 0 {
        data
    } else {
        with_entries(with_catalogs(data, catalogs.drop_last()), catalogs.last())
    }
}

pub open spec fn alias_names(aliases: Seq<Alias>) -> Seq<Seq<char>> {
    aliases.map_values(|a: Alias| a.name@)
}

pub open spec fn catalog_views(catalogs: Seq<Vec<Json>>) -> Seq<Seq<JsonView>> {
    catalogs.map_values(|c: Vec<Json>| json::views(c@))
}

/// The merged entries: virtual models first, then each provider's in turn.
pub open spec fn merged(catalogs: Seq<Seq<JsonView>>, names: Seq<Seq<char>>) -> Seq<JsonView> {
    with_catalogs(with_aliases(Seq::empty(), names), catalogs)
}

/// An OpenAI-shaped list of models.
pub open spec fn list_document(data: Seq<JsonView>) -> JsonView {
    JsonView::Obj(seq![("object"@, JsonView::Str("list"@)), ("data"@, JsonView::Arr(data))])
}

fn alias_json(name: &str) -> (r: Json)
    ensures
        r@ == alias_entry(name@),
{
    let id = Json::Str(text::owned(name));
    let object = Json::Str(text::owned("model"));
    let owner = Json::Str(text::owned("sluice"));
    let mut fields: Vec<(String, Json)> = Vec::new();
    fields.push((text::owned("id"), id));
    fields.push((text::owned("object"), object));
    fields.push((text::owned("owned_by"), owner));
    let r = Json::Obj(fields);
    proof {
        assert(id@ == JsonView::Str(name@));
        assert(object@ == JsonView::Str("model"@));
        assert(owner@ == JsonView::Str("sluice"@));
        assert(r@->Obj_0 =~= alias_entry(name@)->Obj_0);
    }
    r
}

fn merge_data(catalogs: &[Vec<Json>], aliases: &[Alias]) -> (data: Vec<Json>)
    ensures
        json::views(data@) == merged(catalog_views(catalogs@), alias_names(aliases@)),
{
    let ghost names = alias_names(aliases@);
    let mut data: Vec<Json> = Vec::new();
    let mut i: usize = 0;
    assert(json::views(data@) =~= Seq::<JsonView>::empty());
    assert(names.take(0) =~= Seq::<Seq<char>>::empty());
    while i < aliases.len()
        invariant
            i <= aliases@.len(),
            names == alias_names(aliases@),
            json::views(data@) == with_aliases(Seq::empty(), names.take(i as int)),
        decreases aliases@.len() - i,
    {
        let ghost before = data@;
        proof {
            assert(names.take(i as int + 1).drop_last() =~= names.take(i as int));
            assert(names[i as int] == aliases@[i as int].name@);
        }
        let name = aliases[i].name.as_str();
        if !has_model(&data, name) {
            data.push(alias_json(name));
            assert(json::views(data@) =~= json::views(before).push(alias_entry(name@)));
        }
        i += 1;
    }
    assert(names.take(names.len() as int) =~= names);
    let ghost first = json::views(data@);
    let ghost all = catalog_views(catalogs@);
    let mut c: usize = 0;
    assert(all.take(0) =~= Seq::<Seq<JsonView>>::empty());
    while c < catalogs.len()
        invariant
            c <= catalogs@.len(),
            all == catalog_views(catalogs@),
            json::views(data@) == with_catalogs(first, all.take(c as int)),
        decreases catalogs@.len() - c,
    {
        proof {
            assert(all.take(c as int + 1).drop_last() =~= all.take(c as int));
            assert(all[c as int] == json::views(catalogs@[c as int]@));
        }
        let ghost start = json::views(data@);
        let ghost items = all[c as int];
        let catalog = &catalogs[c];
        let mut e: usize = 0;
        assert(items.take(0) =~= Seq::<JsonView>::empty());
        while e < catalog.len()
            invariant
                e <= catalog@.len(),
                items == json::views(catalog@),
                json::views(data@) == with_entries(start, items.take(e as int)),
            decreases catalog@.len() - e,
        {
            let ghost before = data@;
            proof {
                assert(items.take(e as int + 1).drop_last() =~= items.take(e as int));
                assert(items[e as int] == catalog@[e as int]@);
            }
            match catalog[e].str_at("id") {
                Some(id) => {
                    if !has_model(&data, id) {
                        data.push(catalog[e].dup());
                        assert(json::views(data@) =~= json::views(before).push(items[e as int]));
                    }
                },
                None => {},
            }
            e += 1;
        }
        assert(items.take(items.len() as int) =~= items);
        c += 1;
    }
    assert(all.take(all.len() as int) =~= all);
    data
}

/// Merge provider catalogs and alias names into one OpenAI-shaped response.
///
/// Ids are deduped: the same model offered by two providers is one entry, since
/// a client picks a name and the proxy decides where it runs. First occurrence
/// wins, so provider order in config decides which metadata is shown.
pub fn merge(catalogs: &[Vec<Json>], aliases: &[Alias]) -> (r: Json)
    ensures
        r@ == list_document(merged(catalog_views(catalogs@), alias_names(aliases@))),
{
    let data = merge_data(catalogs, aliases);
    let list = Json::Arr(data);
    assert(list@->Arr_0 =~= json::views(data@));
    reply::two_fields("object", Json::Str(text::owned("list")), "data", list)
}

// --- What a merge guarantees -------------------------------------------------

/// Every entry has an id, and no two entries share one.
pub open spec fn ids_distinct(data: Seq<JsonView>) -> bool {
    &&& forall|i: int| 0 <= i < data.len() ==> id_of(#[trigger] data[i]) is Some
    &&& forall|i: int, j: int|
        0 <= i < j < data.len() ==> id_of(#[trigger] data[i]) != id_of(#[trigger] data[j])
}

proof fn lemma_alias_id(name: Seq<char>)
    ensures
        id_of(alias_entry(name)) == Some(name),
{
    let fields = alias_entry(name)->Obj_0;
    assert(fields[0].0 == "id"@);
    table::lemma_is_at(fields, "id"@, 0);
}

proof fn lemma_pushed(data: Seq<JsonView>, entry: JsonView, id: Seq<char>)
    requires
        ids_distinct(data),
        id_of(entry) == Some(id),
        !lists(data, id),
    ensures
        ids_distinct(data.push(entry)),
        lists(data.push(entry), id),
        forall|x: Seq<char>| #[trigger] lists(data, x) ==> lists(data.push(entry), x),
{
    let after = data.push(entry);
    assert(after[data.len() as int] == entry);
    assert forall|x: Seq<char>| #[trigger] lists(data, x) implies lists(after, x) by {
        let i = choose|i: int| 0 <= i < data.len() && id_of(#[trigger] data[i]) == Some(x);
        assert(after[i] == data[i]);
    }
}

proof fn lemma_with_aliases(names: Seq<Seq<char>>)
    ensures
        ids_distinct(with_aliases(Seq::empty(), names)),
        forall|i: int|
            0 <= i < names.len() ==> lists(with_aliases(Seq::empty(), names), #[trigger] names[i]),
    decreases names.len(),
{
    if names.len() > 0 {
        let rest = with_aliases(Seq::empty(), names.drop_last());
        lemma_with_aliases(names.drop_last());
        lemma_alias_id(names.last());
        if !lists(rest, names.last()) {
            lemma_pushed(rest, alias_entry(names.last()), names.last());
        }
        assert forall|i: int| 0 <= i < names.len() implies lists(
            with_aliases(Seq::empty(), names),
            #[trigger] names[i],
        ) by {
            if i < names.len() - 1 {
                assert(lists(rest, names.drop_last()[i]));
            }
        }
    }
}

proof fn lemma_with_entries(data: Seq<JsonView>, entries: Seq<JsonView>)
    requires
        ids_distinct(data),
    ensures
        ids_distinct(with_entries(data, entries)),
        data.len() <= with_entries(data, entries).len(),
        forall|i: int| 0 <= i < data.len() ==> #[trigger] with_entries(data, entries)[i] == data[i],
        forall|x: Seq<char>| #[trigger] lists(data, x) ==> lists(with_entries(data, entries), x),
        forall|x: Seq<char>| #[trigger] lists(entries, x) ==> lists(with_entries(data, entries), x),
    decreases entries.len(),
{
    if entries.len() > 0 {
        let rest = with_entries(data, entries.drop_last());
        let all = with_entries(data, entries);
        lemma_with_entries(data, entries.drop_last());
        let last = entries.last();
        if id_of(last) is Some && !lists(rest, id_of(last)->0) {
            lemma_pushed(rest, last, id_of(last)->0);
        }
        assert forall|x: Seq<char>| #[trigger] lists(entries, x) implies lists(all, x) by {
            let i = choose|i: int|
                0 <= i < entries.len() && id_of(#[trigger] entries[i]) == Some(x);
            if i < entries.len() - 1 {
                assert(entries.drop_last()[i] == entries[i]);
                assert(lists(entries.drop_last(), x));
                assert(lists(rest, x));
            }
        }
        assert forall|x: Seq<char>| #[trigger] lists(data, x) implies lists(all, x) by {
            assert(lists(rest, x));
        }
    }
}

proof fn lemma_with_catalogs(data: Seq<JsonView>, catalogs: Seq<Seq<JsonView>>)
    requires
        ids_distinct(data),
    ensures
        ids_distinct(with_catalogs(data, catalogs)),
        data.len() <= with_catalogs(data, catalogs).len(),
        forall|i: int|
            0 <= i < data.len() ==> #[trigger] with_catalogs(data, catalogs)[i] == data[i],
        forall|x: Seq<char>| #[trigger] lists(data, x) ==> lists(with_catalogs(data, catalogs), x),
        forall|c: int, x: Seq<char>|
            0 <= c < catalogs.len() && #[trigger] lists(catalogs[c], x) ==> lists(
                with_catalogs(data, catalogs),
                x,
            ),
    decreases catalogs.len(),
{
    if catalogs.len() > 0 {
        let rest = with_catalogs(data, catalogs.drop_last());
        let all = with_catalogs(data, catalogs);
        lemma_with_catalogs(data, catalogs.drop_last());
        lemma_with_entries(rest, catalogs.last());
        assert forall|x: Seq<char>| #[trigger] lists(data, x) implies lists(all, x) by {
            assert(lists(rest, x));
        }
        assert forall|c: int, x: Seq<char>|
            0 <= c < catalogs.len() && #[trigger] lists(catalogs[c], x) implies lists(all, x) by {
            if c < catalogs.len() - 1 {
                assert(catalogs.drop_last()[c] == catalogs[c]);
                assert(lists(catalogs.drop_last()[c], x));
                assert(lists(rest, x));
            }
        }
        assert forall|i: int| 0 <= i < data.len() implies #[trigger] all[i] == data[i] by {
            assert(rest[i] == data[i]);
        }
    }
}

/// A merged catalog names every model once: every virtual model and every model
/// with an id that some provider lists, and no id twice.
pub proof fn law_a_merge_names_every_model_once(
    catalogs: Seq<Seq<JsonView>>,
    names: Seq<Seq<char>>,
)
    ensures
        ids_distinct(merged(catalogs, names)),
        forall|i: int|
            0 <= i < names.len() ==> lists(merged(catalogs, names), #[trigger] names[i]),
        forall|c: int, id: Seq<char>|
            0 <= c < catalogs.len() && #[trigger] lists(catalogs[c], id) ==> lists(
                merged(catalogs, names),
                id,
            ),
{
    lemma_with_aliases(names);
    let first = with_aliases(Seq::empty(), names);
    lemma_with_catalogs(first, catalogs);
    assert forall|i: int| 0 <= i < names.len() implies lists(
        merged(catalogs, names),
        #[trigger] names[i],
    ) by {
        assert(lists(first, names[i]));
    }
}

/// A virtual model shadows a real one of the same name: it is what routing will
/// actually use, so it is what is shown.
pub proof fn law_a_virtual_model_shadows_a_real_one(
    catalogs: Seq<Seq<JsonView>>,
    names: Seq<Seq<char>>,
    i: int,
)
    requires
        0 <= i < with_aliases(Seq::empty(), names).len(),
    ensures
        merged(catalogs, names)[i] == with_aliases(Seq::empty(), names)[i],
{
    lemma_with_aliases(names);
    lemma_with_catalogs(with_aliases(Seq::empty(), names), catalogs);
}

// --- Context windows ---------------------------------------------------------

/// Context windows learned from providers that refused over-long requests.
pub struct ContextLimits {
    seen: Table<String, u64>,
}

/// The smallest value in the rows.
pub open spec fn least(rows: Seq<(Seq<char>, u64)>) -> Option<u64>
    decreases rows.len(),
{
    if rows.len() == 0 {
        None
    } else {
        match least(rows.drop_last()) {
            Some(n) => if rows.last().1 < n {
                Some(rows.last().1)
            } else {
                Some(n)
            },
            None => Some(rows.last().1),
        }
    }
}

/// An entry with the context window of its model stated, where that is known.
pub open spec fn annotated(entry: JsonView, limits: Seq<(Seq<char>, u64)>) -> JsonView {
    match id_of(entry) {
        Some(id) => match table::get(limits, id) {
            Some(n) => json::with_field(entry, "context_length"@, JsonView::UInt(n)),
            None => entry,
        },
        None => entry,
    }
}

impl ContextLimits {
    /// The models seen and their windows.
    pub closed spec fn rows(&self) -> Seq<(Seq<char>, u64)> {
        self.seen@
    }

    pub closed spec fn wf(&self) -> bool {
        self.seen.wf()
    }

    pub fn new() -> (r: Self)
        ensures
            r.wf(),
            r.rows().len() == 0,
    {
        ContextLimits { seen: Table::new() }
    }

    /// Remember the window a provider stated for `model`.
    pub fn learn(&mut self, model: &str, n: u64)
        requires
            old(self).wf(),
        ensures
            final(self).wf(),
            final(self).rows() == table::put(old(self).rows(), model@, n),
    {
        self.seen.insert(text::owned(model), n);
    }

    /// The window of `model`, where one was learned.
    pub fn get(&self, model: &str) -> (r: Option<u64>)
        ensures
            r == table::get(self.rows(), model@),
    {
        match self.seen.get_text(model) {
            Some(n) => Some(*n),
            None => None,
        }
    }

    /// The smallest window learned: what every model is known to take.
    pub fn smallest(&self) -> (r: Option<u64>)
        ensures
            r == least(self.rows()),
    {
        let ghost all = self.seen@;
        let rows = self.seen.rows();
        let mut best: Option<u64> = None;
        let mut i: usize = 0;
        while i < rows.len()
            invariant
                i <= rows@.len(),
                rows@.len() == all.len(),
                forall|j: int| 0 <= j < rows@.len() ==> #[trigger] table::row_view(rows@[j]) == all[j],
                best == least(all.take(i as int)),
            decreases rows@.len() - i,
        {
            proof {
                assert(all.take(i as int + 1).drop_last() =~= all.take(i as int));
                assert(table::row_view(rows@[i as int]) == all[i as int]);
            }
            let n: u64 = rows[i].1;
            best = match best {
                Some(b) => if n < b {
                    Some(n)
                } else {
                    Some(b)
                },
                None => Some(n),
            };
            i += 1;
        }
        assert(all.take(all.len() as int) =~= all);
        best
    }
}

/// The smallest window is one that was learned, and no learned window is smaller.
pub proof fn law_the_smallest_window_is_the_least_learned(rows: Seq<(Seq<char>, u64)>)
    ensures
        least(rows) is None <==> rows.len() == 0,
        least(rows) matches Some(n) ==> {
            &&& exists|i: int| 0 <= i < rows.len() && (#[trigger] rows[i]).1 == n
            &&& forall|i: int| 0 <= i < rows.len() ==> n <= (#[trigger] rows[i]).1
        },
    decreases rows.len(),
{
    if rows.len() > 0 {
        let p = rows.drop_last();
        law_the_smallest_window_is_the_least_learned(p);
        let n = least(rows)->0;
        if least(p) is Some && n == least(p)->0 {
            let i = choose|i: int| 0 <= i < p.len() && (#[trigger] p[i]).1 == n;
            assert(rows[i].1 == n);
        } else {
            assert(rows[rows.len() - 1].1 == n);
        }
        assert forall|i: int| 0 <= i < rows.len() implies n <= (#[trigger] rows[i]).1 by {
            if i < p.len() {
                assert(p[i] == rows[i]);
            }
        }
    }
}

/// The answer to `/v1/models`: the merged catalog, with every context window that
/// was learned stated in its entry, so clients stop guessing.
pub fn published(catalogs: &[Vec<Json>], aliases: &[Alias], limits: &ContextLimits) -> (r: Json)
    ensures
        r@ == list_document(
            merged(catalog_views(catalogs@), alias_names(aliases@)).map_values(
                |e: JsonView| annotated(e, limits.rows()),
            ),
        ),
{
    let data = merge_data(catalogs, aliases);
    let ghost all = json::views(data@);
    let ghost f = |e: JsonView| annotated(e, limits.rows());
    let mut out: Vec<Json> = Vec::new();
    let mut i: usize = 0;
    while i < data.len()
        invariant
            i <= data@.len(),
            all == json::views(data@),
            f == |e: JsonView| annotated(e, limits.rows()),
            out@.len() == i,
            forall|j: int| 0 <= j < i ==> (#[trigger] out@[j])@ == f(all[j]),
        decreases data@.len() - i,
    {
        let mut entry = data[i].dup();
        let window = match data[i].str_at("id") {
            Some(id) => limits.get(id),
            None => None,
        };
        match window {
            Some(n) => {
                entry.set("context_length", Json::UInt(n));
            },
            None => {},
        }
        assert(all[i as int] == data@[i as int]@);
        assert(entry@ == f(all[i as int]));
        out.push(entry);
        i += 1;
    }
    let list = Json::Arr(out);
    assert(list@->Arr_0 =~= all.map_values(f));
    reply::two_fields("object", Json::Str(text::owned("list")), "data", list)
}

/// A catalog is trusted for as many seconds as stated from when it was fetched, and not
/// at all where that is none.
pub proof fn law_a_catalog_ages(fetched: u128, ttl_secs: u64, now: u128)
    ensures
        is_fresh(fetched, ttl_secs, now) <==> ttl_secs > 0 && now < fetched + ttl_secs
            * 1_000_000_000,
{
}

/// A merged catalog invents nothing: each entry is that of a virtual model, or one that
/// some provider lists.
pub proof fn law_a_merge_invents_nothing(catalogs: Seq<Seq<JsonView>>, names: Seq<Seq<char>>, i: int)
    requires
        0 <= i < merged(catalogs, names).len(),
    ensures
        ({
            let e = merged(catalogs, names)[i];
            ||| exists|k: int|
                0 <= k < names.len() && json::field(e, "id"@) == Some(
                    JsonView::Str(#[trigger] names[k]),
                )
            ||| exists|c: int| 0 <= c < catalogs.len() && (#[trigger] catalogs[c]).contains(e)
        }),
{
    let first = with_aliases(Seq::empty(), names);
    lemma_catalogs_from(first, catalogs, i);
    let e = merged(catalogs, names)[i];
    if first.contains(e) {
        let j = choose|j: int| 0 <= j < first.len() && first[j] == e;
        lemma_aliases_from(names, j);
    }
}

proof fn lemma_aliases_from(names: Seq<Seq<char>>, i: int)
    requires
        0 <= i < with_aliases(Seq::empty(), names).len(),
    ensures
        exists|k: int|
            0 <= k < names.len() && json::field(
                with_aliases(Seq::empty(), names)[i],
                "id"@,
            ) == Some(JsonView::Str(#[trigger] names[k])),
    decreases names.len(),
{
    if names.len() > 0 {
        let rest = with_aliases(Seq::empty(), names.drop_last());
        if i < rest.len() {
            lemma_aliases_from(names.drop_last(), i);
            let k = choose|k: int|
                0 <= k < names.len() - 1 && json::field(rest[i], "id"@) == Some(
                    JsonView::Str(#[trigger] names.drop_last()[k]),
                );
            assert(names[k] == names.drop_last()[k]);
        } else {
            lemma_alias_id(names.last());
            assert(names[names.len() - 1] == names.last());
        }
    }
}

proof fn lemma_entries_from(data: Seq<JsonView>, entries: Seq<JsonView>, i: int)
    requires
        0 <= i < with_entries(data, entries).len(),
    ensures
        data.contains(with_entries(data, entries)[i]) || entries.contains(
            with_entries(data, entries)[i],
        ),
    decreases entries.len(),
{
    if entries.len() > 0 {
        let rest = with_entries(data, entries.drop_last());
        if i < rest.len() {
            lemma_entries_from(data, entries.drop_last(), i);
            if entries.drop_last().contains(rest[i]) {
                let k = choose|k: int|
                    0 <= k < entries.len() - 1 && entries.drop_last()[k] == rest[i];
                assert(entries[k] == rest[i]);
            }
        } else {
            assert(entries[entries.len() - 1] == entries.last());
        }
    } else {
        assert(data.contains(data[i]));
    }
}

proof fn lemma_catalogs_from(data: Seq<JsonView>, catalogs: Seq<Seq<JsonView>>, i: int)
    requires
        0 <= i < with_catalogs(data, catalogs).len(),
    ensures
        data.contains(with_catalogs(data, catalogs)[i]) || exists|c: int|
            0 <= c < catalogs.len() && (#[trigger] catalogs[c]).contains(
                with_catalogs(data, catalogs)[i],
            ),
    decreases catalogs.len(),
{
    if catalogs.len() > 0 {
        let rest = with_catalogs(data, catalogs.drop_last());
        let e = with_catalogs(data, catalogs)[i];
        lemma_entries_from(rest, catalogs.last(), i);
        if catalogs.last().contains(e) {
            assert(catalogs[catalogs.len() - 1].contains(e));
        } else {
            let j = choose|j: int| 0 <= j < rest.len() && rest[j] == e;
            lemma_catalogs_from(data, catalogs.drop_last(), j);
            if !data.contains(e) {
                let c = choose|c: int|
                    0 <= c < catalogs.len() - 1 && (#[trigger] catalogs.drop_last()[c]).contains(e);
                assert(catalogs[c].contains(e));
            }
        }
    } else {
        assert(data.contains(data[i]));
    }
}

/// The provider that comes first decides what is shown of a model: its entry stands in
/// the merged catalog as it is, unless a virtual model has the name.
pub proof fn law_the_first_listing_is_shown(
    catalogs: Seq<Seq<JsonView>>,
    names: Seq<Seq<char>>,
    c: int,
    i: int,
    id: Seq<char>,
)
    requires
        0 <= c < catalogs.len(),
        0 <= i < catalogs[c].len(),
        json::field(catalogs[c][i], "id"@) == Some(JsonView::Str(id)),
        forall|k: int| 0 <= k < names.len() ==> #[trigger] names[k] != id,
        forall|d: int| 0 <= d < c ==> !lists(#[trigger] catalogs[d], id),
        forall|j: int|
            0 <= j < i ==> json::field(#[trigger] catalogs[c][j], "id"@) != Some(
                JsonView::Str(id),
            ),
    ensures
        merged(catalogs, names).contains(catalogs[c][i]),
{
    let first = with_aliases(Seq::empty(), names);
    assert(!lists(first, id)) by {
        if lists(first, id) {
            let j = choose|j: int| 0 <= j < first.len() && id_of(#[trigger] first[j]) == Some(id);
            lemma_aliases_from(names, j);
        }
    }
    lemma_first_listing(first, catalogs, c, i, id);
}

proof fn lemma_not_listed(data: Seq<JsonView>, entries: Seq<JsonView>, id: Seq<char>)
    requires
        !lists(data, id),
        !lists(entries, id),
    ensures
        !lists(with_entries(data, entries), id),
{
    let all = with_entries(data, entries);
    if lists(all, id) {
        let j = choose|j: int| 0 <= j < all.len() && id_of(#[trigger] all[j]) == Some(id);
        lemma_entries_from(data, entries, j);
        if data.contains(all[j]) {
            let k = choose|k: int| 0 <= k < data.len() && data[k] == all[j];
            assert(id_of(data[k]) == Some(id));
        } else {
            let k = choose|k: int| 0 <= k < entries.len() && entries[k] == all[j];
            assert(id_of(entries[k]) == Some(id));
        }
    }
}

proof fn lemma_first_entry(data: Seq<JsonView>, entries: Seq<JsonView>, i: int, id: Seq<char>)
    requires
        !lists(data, id),
        0 <= i < entries.len(),
        id_of(entries[i]) == Some(id),
        forall|j: int| 0 <= j < i ==> id_of(#[trigger] entries[j]) != Some(id),
    ensures
        with_entries(data, entries).contains(entries[i]),
    decreases entries.len(),
{
    let before = entries.drop_last();
    let rest = with_entries(data, before);
    let all = with_entries(data, entries);
    if i == entries.len() - 1 {
        assert(!lists(before, id));
        lemma_not_listed(data, before, id);
        assert(all[rest.len() as int] == entries[i]);
    } else {
        lemma_first_entry(data, before, i, id);
        let j = choose|j: int| 0 <= j < rest.len() && rest[j] == entries[i];
        assert(all[j] == entries[i]);
    }
}

proof fn lemma_entries_stay(data: Seq<JsonView>, entries: Seq<JsonView>, e: JsonView)
    requires
        data.contains(e),
    ensures
        with_entries(data, entries).contains(e),
    decreases entries.len(),
{
    if entries.len() > 0 {
        let rest = with_entries(data, entries.drop_last());
        lemma_entries_stay(data, entries.drop_last(), e);
        let j = choose|j: int| 0 <= j < rest.len() && rest[j] == e;
        assert(with_entries(data, entries)[j] == e);
    }
}

proof fn lemma_first_listing(
    data: Seq<JsonView>,
    catalogs: Seq<Seq<JsonView>>,
    c: int,
    i: int,
    id: Seq<char>,
)
    requires
        !lists(data, id),
        0 <= c < catalogs.len(),
        0 <= i < catalogs[c].len(),
        id_of(catalogs[c][i]) == Some(id),
        forall|d: int| 0 <= d < c ==> !lists(#[trigger] catalogs[d], id),
        forall|j: int| 0 <= j < i ==> id_of(#[trigger] catalogs[c][j]) != Some(id),
    ensures
        with_catalogs(data, catalogs).contains(catalogs[c][i]),
    decreases catalogs.len(),
{
    let before = catalogs.drop_last();
    let rest = with_catalogs(data, before);
    if c == catalogs.len() - 1 {
        lemma_none_listed(data, before, id);
        lemma_first_entry(rest, catalogs[c], i, id);
    } else {
        assert(before[c] == catalogs[c]);
        lemma_first_listing(data, before, c, i, id);
        lemma_entries_stay(rest, catalogs.last(), catalogs[c][i]);
    }
}

proof fn lemma_none_listed(data: Seq<JsonView>, catalogs: Seq<Seq<JsonView>>, id: Seq<char>)
    requires
        !lists(data, id),
        forall|d: int| 0 <= d < catalogs.len() ==> !lists(#[trigger] catalogs[d], id),
    ensures
        !lists(with_catalogs(data, catalogs), id),
    decreases catalogs.len(),
{
    if catalogs.len() > 0 {
        lemma_none_listed(data, catalogs.drop_last(), id);
        assert(!lists(catalogs[catalogs.len() - 1], id));
        lemma_not_listed(with_catalogs(data, catalogs.drop_last()), catalogs.last(), id);
    }
}

/// A model whose window was learned is published with it, and with every other field as
/// the provider stated it; one whose window is unknown is published as it came.
pub proof fn law_a_learned_window_is_published(
    entry: JsonView,
    id: Seq<char>,
    limits: Seq<(Seq<char>, u64)>,
)
    requires
        json::field(entry, "id"@) == Some(JsonView::Str(id)),
    ensures
        table::get(limits, id) matches Some(n) ==> json::field(
            annotated(entry, limits),
            "context_length"@,
        ) == Some(JsonView::UInt(n)) && forall|k: Seq<char>|
            k != "context_length"@ ==> #[trigger] json::field(annotated(entry, limits), k)
                == json::field(entry, k),
        table::get(limits, id) is None ==> annotated(entry, limits) == entry,
{
    if let Some(n) = table::get(limits, id) {
        json::law_setting_a_field_sets_that_field_only(
            entry,
            "context_length"@,
            JsonView::UInt(n),
        );
    }
}

} // verus!
