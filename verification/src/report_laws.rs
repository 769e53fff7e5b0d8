//! What reports count and say: catalogs, recommendations, conflicts, leftovers, releases and rows.

use vstd::prelude::*;
use crate::config_report::{
    authoring_path, count_attention, count_installed, is_canonical, known_selections, Checkout,
};
use crate::config_ui::ConfigRowView;
use crate::diagnosis::Findings;
use crate::diagnosis_laws::{lemma_held, of_catalog};
use crate::failure::{first_where, lemma_first_refusal, lemma_first_where};
use crate::install::is_held;
use crate::model::{CatalogRegistration, SkillSelection};
use crate::name_map::{lemma_walk_finite, walk};
use crate::ownership::{agent_places, conflicts_of, is_named, key_for, places_of, OwnershipView};
use crate::paths::joined_path;
use crate::project_store::EntryKind;
use crate::reach::{last_failure, rest_refusal, rests};
use crate::recommend::{found_files, found_words, reasons, word_stands};
use crate::release::{comes_after, is_newer, release_of, release_part};
use crate::resolve::{alias_of, ResolvedView};
use crate::status::{
    count_of, owned_count, report_of, stale_set, unavailable_set, CatalogStatus,
};
use crate::text::{
    contains_text, decimal, find_char, is_digit, lemma_find_char, lemma_find_char_bound, lower_text,
    split_on, starts_with, unsigned, views, Text,
};
use crate::text_laws::law_numbers_are_read_back;
use crate::work::{work_faults, work_refusal, WorkEntry};

verus! {

// Catalogs.

proof fn lemma_counted(keys: Seq<Text>, alias: Text, n: int)
    requires
        0 <= n <= keys.len(),
        keys.no_duplicates(),
    ensures
        keys.take(n).to_set().filter(|k: Text| starts_with(k, alias + "/"@)).finite(),
        count_of(keys, alias, n) == keys.take(n).to_set().filter(
            |k: Text| starts_with(k, alias + "/"@),
        ).len(),
    decreases n,
{
    let p = |k: Text| starts_with(k, alias + "/"@);
    if n == 0 {
        assert(keys.take(0).to_set().filter(p) =~= Set::<Text>::empty());
    } else {
        lemma_counted(keys, alias, n - 1);
        let before = keys.take(n - 1).to_set().filter(p);
        let now = keys.take(n).to_set().filter(p);
        let last = keys[n - 1];
        assert forall|k: Text| keys.take(n).to_set().contains(k) == (keys.take(
            n - 1,
        ).to_set().contains(k) || k == last) by {
            if keys.take(n).contains(k) {
                let i = keys.take(n).index_of(k);
                assert(keys.take(n)[i] == k);
                if i < n - 1 {
                    assert(keys.take(n - 1)[i] == k);
                }
            }
            if keys.take(n - 1).contains(k) {
                let i = keys.take(n - 1).index_of(k);
                assert(keys.take(n)[i] == k);
            }
            assert(keys.take(n)[n - 1] == last);
        }
        if keys.take(n - 1).contains(last) {
            let i = keys.take(n - 1).index_of(last);
            assert(keys[i] == last);
        }
        if p(last) {
            assert(now =~= before.insert(last));
            assert(!before.contains(last));
        } else {
            assert(now =~= before);
        }
    }
}

/// A catalog is counted the keys that begin with its alias and a `/`, and no others.
pub proof fn law_keys_are_counted_by_catalog(keys: Set<Text>, alias: Text)
    requires
        keys.finite(),
    ensures
        owned_count(keys, alias) == keys.filter(|k: Text| starts_with(k, alias + "/"@)).len(),
{
    lemma_walk_finite(keys);
    let list = walk(keys);
    lemma_counted(list, alias, list.len() as int);
    assert(list.take(list.len() as int) =~= list);
    assert(list.to_set() =~= keys);
}

/// A catalog is at hand exactly where it is available; it is stale exactly where its last content is
/// kept; and a report says what it is, how much is declared and installed of it, and the warning.
pub proof fn law_catalog_reports_are_true(
    statuses: Map<Text, CatalogStatus>,
    alias: Text,
    declared: nat,
    installed: nat,
)
    requires
        statuses.contains_key(alias),
    ensures
        unavailable_set(statuses).contains(alias) <==> !(statuses[alias].availability is Available),
        stale_set(statuses).contains(alias) <==> statuses[alias].availability is Stale,
        ({
            let r = report_of(statuses[alias], declared, installed);
            let availability = statuses[alias].availability;
            &&& r.alias == statuses[alias].alias@
            &&& r.stale <==> availability is Stale
            &&& r.availability == (if availability is Available {
                "available"@
            } else if availability is Stale {
                "stale"@
            } else {
                "unavailable"@
            })
            &&& r.declared_count == declared && r.installed_count == installed
            &&& r.warning is Some <==> statuses[alias].warning is Some
            &&& r.warning is Some ==> r.warning->Some_0 == statuses[alias].warning->Some_0@
        }),
{
}

/// The selections of a shown configuration are those whose catalog is known, each as it was.
pub proof fn law_known_selections_stay(skills: Map<Text, SkillSelection>, catalogs: Set<Text>, key: Text)
    ensures
        ({
            let known = known_selections(skills, catalogs);
            &&& known.contains_key(key) <==> skills.contains_key(key) && of_catalog(key, catalogs)
            &&& known.contains_key(key) ==> known[key] == skills[key]
        }),
{
    lemma_held(key, catalogs);
    assert(is_held(key, catalogs) == (alias_of(key) is Some && catalogs.contains(
        alias_of(key)->Some_0,
    )));
}

// Recommendations.

proof fn lemma_found_files(files: Seq<Text>, names: Seq<Text>, n: int, r: Text)
    requires
        0 <= n <= files.len(),
    ensures
        found_files(files, names, n).contains(r) == (files.take(n).contains(r) && names.contains(r)),
    decreases n,
{
    if n > 0 {
        lemma_found_files(files, names, n - 1, r);
        let front = found_files(files, names, n - 1);
        let whole = found_files(files, names, n);
        let last = files[n - 1];
        lemma_take_more(files, n, r);
        if front.contains(r) {
            let i = front.index_of(r);
            assert(whole[i] == r);
        }
        if whole.len() > front.len() {
            assert(whole[whole.len() - 1] == last);
            if whole.contains(r) {
                let i = whole.index_of(r);
                if i < front.len() {
                    assert(front[i] == r);
                }
            }
        }
    }
}

proof fn lemma_take_more(list: Seq<Text>, n: int, r: Text)
    requires
        0 < n <= list.len(),
    ensures
        list.take(n).contains(r) == (list.take(n - 1).contains(r) || list[n - 1] == r),
{
    if list.take(n).contains(r) {
        let i = list.take(n).index_of(r);
        assert(list.take(n)[i] == r);
        if i < n - 1 {
            assert(list.take(n - 1)[i] == r);
        }
    }
    if list.take(n - 1).contains(r) {
        let i = list.take(n - 1).index_of(r);
        assert(list.take(n)[i] == r);
    }
    assert(list.take(n)[n - 1] == list[n - 1]);
}

proof fn lemma_found_words(words: Seq<Text>, names: Seq<Text>, texts: Seq<Text>, n: int, r: Text)
    requires
        0 <= n <= words.len(),
    ensures
        found_words(words, names, texts, n).contains(r) == (words.take(n).contains(r) && (
        word_stands(names, r) || word_stands(texts, r))),
    decreases n,
{
    if n > 0 {
        lemma_found_words(words, names, texts, n - 1, r);
        let front = found_words(words, names, texts, n - 1);
        let whole = found_words(words, names, texts, n);
        let last = words[n - 1];
        lemma_take_more(words, n, r);
        if front.contains(r) {
            let i = front.index_of(r);
            assert(whole[i] == r);
        }
        if whole.len() > front.len() {
            assert(whole[whole.len() - 1] == last);
            if whole.contains(r) {
                let i = whole.index_of(r);
                if i < front.len() {
                    assert(front[i] == r);
                }
            }
        }
    }
}

/// The project speaks of a word: it stands in one of its names or guides, whatever the capitals.
pub open spec fn speaks_of(names: Seq<Text>, texts: Seq<Text>, word: Text) -> bool {
    (exists|i: int|
        0 <= i < names.len() && contains_text(lower_text(#[trigger] names[i]), lower_text(word)))
        || exists|i: int|
        0 <= i < texts.len() && contains_text(lower_text(#[trigger] texts[i]), lower_text(word))
}

/// A skill is recommended exactly where it asks for something, the project has one of its files where
/// it asks for files, and speaks of one of its words where it asks for words. The reasons are just the
/// files that are there and the words that are spoken of.
pub proof fn law_recommendations_have_reasons(
    files: Seq<Text>,
    keywords: Seq<Text>,
    names: Seq<Text>,
    texts: Seq<Text>,
    r: Text,
)
    ensures
        ({
            let why = reasons(files, keywords, names, texts);
            let has_file = exists|i: int|
                0 <= i < files.len() && names.contains(#[trigger] files[i]);
            let has_word = exists|i: int|
                0 <= i < keywords.len() && speaks_of(names, texts, #[trigger] keywords[i]);
            &&& why is Some <==> {
                &&& files.len() > 0 || keywords.len() > 0
                &&& files.len() > 0 ==> has_file
                &&& keywords.len() > 0 ==> has_word
            }
            &&& why is Some ==> (why->Some_0.contains(r) <==> (files.contains(r) && names.contains(
                r,
            )) || (keywords.contains(r) && speaks_of(names, texts, r)))
        }),
{
    let n = files.len() as int;
    let m = keywords.len() as int;
    let by_file = found_files(files, names, n);
    let by_word = found_words(keywords, names, texts, m);
    assert(files.take(n) =~= files);
    assert(keywords.take(m) =~= keywords);
    lemma_found_files(files, names, n, r);
    lemma_found_words(keywords, names, texts, m, r);
    if by_file.len() > 0 {
        let f = by_file[0];
        lemma_found_files(files, names, n, f);
        assert(by_file.contains(f));
        let i = files.index_of(f);
        assert(names.contains(files[i]));
    }
    if exists|i: int| 0 <= i < files.len() && names.contains(#[trigger] files[i]) {
        let i = choose|i: int| 0 <= i < files.len() && names.contains(#[trigger] files[i]);
        lemma_found_files(files, names, n, files[i]);
        assert(by_file.contains(files[i]));
    }
    if by_word.len() > 0 {
        let w = by_word[0];
        lemma_found_words(keywords, names, texts, m, w);
        assert(by_word.contains(w));
        let i = keywords.index_of(w);
        assert(speaks_of(names, texts, keywords[i]));
    }
    if exists|i: int| 0 <= i < keywords.len() && speaks_of(names, texts, #[trigger] keywords[i]) {
        let i = choose|i: int|
            0 <= i < keywords.len() && speaks_of(names, texts, #[trigger] keywords[i]);
        lemma_found_words(keywords, names, texts, m, keywords[i]);
        assert(by_word.contains(keywords[i]));
    }
    if let Some(why) = reasons(files, keywords, names, texts) {
        if by_file.contains(r) {
            let i = by_file.index_of(r);
            assert(why[i] == r);
        }
        if by_word.contains(r) {
            let i = by_word.index_of(r);
            assert(why[by_file.len() + i] == r);
        }
        if why.contains(r) {
            let i = why.index_of(r);
            if i < by_file.len() {
                assert(by_file[i] == r);
            } else {
                assert(by_word[i - by_file.len()] == r);
            }
        }
    }
}

// Conflicts.

proof fn lemma_agent_places(f: Findings, order: Seq<Text>, name: Text, n: int, place: Text)
    requires
        0 <= n <= order.len(),
    ensures
        agent_places(f.agents@, order, name, n).contains(place) == (exists|i: int|
            0 <= i < n && f.agents@[#[trigger] order[i]] is Ok && f.agents@[order[i]]->Ok_0@.contains(
                name,
            ) && place == "Vercel agent "@ + order[i]),
    decreases n,
{
    if n > 0 {
        lemma_agent_places(f, order, name, n - 1, place);
        let front = agent_places(f.agents@, order, name, n - 1);
        let whole = agent_places(f.agents@, order, name, n);
        let last = order[n - 1];
        if front.contains(place) {
            let i = front.index_of(place);
            assert(whole[i] == place);
        }
        if whole.len() > front.len() {
            assert(whole[whole.len() - 1] == "Vercel agent "@ + last);
            if whole.contains(place) {
                let i = whole.index_of(place);
                if i < front.len() {
                    assert(front[i] == place);
                }
            }
        }
    }
}

/// A place of a conflict is a projection of the name, or an agent that lists it.
pub proof fn law_places_are_projections_and_agents(f: Findings, name: Text, i: int, place: Text)
    requires
        f.agents@.dom().finite(),
    ensures
        places_of(f, name, i).contains(place) <==> views(f.projections@[i]@).contains(place)
            || exists|agent: Text| #[trigger]
            f.agents@.contains_key(agent) && f.agents@[agent] is Ok
                && f.agents@[agent]->Ok_0@.contains(name) && place == "Vercel agent "@ + agent,
{
    let order = walk(f.agents@.dom());
    lemma_walk_finite(f.agents@.dom());
    lemma_agent_places(f, order, name, order.len() as int, place);
    let a = views(f.projections@[i]@);
    let b = agent_places(f.agents@, order, name, order.len() as int);
    let all = places_of(f, name, i);
    if a.contains(place) {
        let k = a.index_of(place);
        assert(all[k] == place);
    }
    if b.contains(place) {
        let k = b.index_of(place);
        assert(all[a.len() + k] == place);
        let j = choose|j: int|
            0 <= j < order.len() && f.agents@[#[trigger] order[j]] is Ok
                && f.agents@[order[j]]->Ok_0@.contains(name) && place == "Vercel agent "@ + order[j];
        assert(order.to_set().contains(order[j]));
        assert(f.agents@.contains_key(order[j]));
    }
    if all.contains(place) {
        let k = all.index_of(place);
        if k < a.len() {
            assert(a[k] == place);
        } else {
            assert(b[k - a.len()] == place);
        }
    }
    if exists|agent: Text| #[trigger]
        f.agents@.contains_key(agent) && f.agents@[agent] is Ok
            && f.agents@[agent]->Ok_0@.contains(name) && place == "Vercel agent "@ + agent {
        let agent = choose|agent: Text| #[trigger]
            f.agents@.contains_key(agent) && f.agents@[agent] is Ok
                && f.agents@[agent]->Ok_0@.contains(name) && place == "Vercel agent "@ + agent;
        assert(order.to_set().contains(agent));
        let j = order.index_of(agent);
        assert(order[j] == agent);
    }
}

/// There is a conflict over exactly those names that are not owned and have a place. It has the key of
/// a skill that is installed under the name, where there is one.
pub proof fn law_conflicts_are_exact(
    f: Findings,
    rs: Seq<ResolvedView>,
    names: Seq<Text>,
    owned: Set<Text>,
    n: int,
    c: OwnershipView,
)
    requires
        0 <= n <= names.len(),
    ensures
        conflicts_of(f, rs, names, owned, n).contains(c) <==> exists|i: int|
            {
                &&& 0 <= i < n
                &&& !owned.contains(#[trigger] names[i])
                &&& places_of(f, names[i], i).len() > 0
                &&& c.name == names[i]
                &&& c.places == places_of(f, names[i], i)
                &&& c.key == key_for(rs, names[i])
            },
        (exists|j: int| 0 <= j < rs.len() && (#[trigger] rs[j]).installed_name == c.name) ==> exists|
            j: int,
        |
            0 <= j < rs.len() && (#[trigger] rs[j]).installed_name == c.name && rs[j].key == key_for(
                rs,
                c.name,
            ),
    decreases n,
{
    let p = is_named(rs, c.name);
    lemma_first_where(rs.len() as int, p);
    if exists|j: int| 0 <= j < rs.len() && (#[trigger] rs[j]).installed_name == c.name {
        let j = choose|j: int| 0 <= j < rs.len() && (#[trigger] rs[j]).installed_name == c.name;
        assert(p(j));
        let k = first_where(rs.len() as int, p)->Some_0;
        assert(p(k));
        assert(rs[k].installed_name == c.name);
    }
    if n > 0 {
        law_conflicts_are_exact(f, rs, names, owned, n - 1, c);
        let front = conflicts_of(f, rs, names, owned, n - 1);
        let whole = conflicts_of(f, rs, names, owned, n);
        let last = names[n - 1];
        if front.contains(c) {
            let i = front.index_of(c);
            assert(whole[i] == c);
        }
        if whole.len() > front.len() {
            let one = whole[whole.len() - 1];
            assert(one.name == last && one.places == places_of(f, last, n - 1) && one.key == key_for(
                rs,
                last,
            ));
            if c.name == last && c.places == places_of(f, last, n - 1) && c.key == key_for(rs, last) {
                assert(c == one);
                assert(whole.contains(c));
            }
            if whole.contains(c) {
                let i = whole.index_of(c);
                if i < front.len() {
                    assert(front[i] == c);
                }
            }
        }
    }
}

// Leftovers.

/// The work directory is read exactly where it and the directory above it are real directories, as far
/// as they are there, and every entry that is staged or prepared work is a directory with the mark.
pub proof fn law_only_marked_work_is_taken(
    parent: Text,
    parent_kind: Option<EntryKind>,
    root: Text,
    root_kind: Option<EntryKind>,
    entries: Seq<WorkEntry>,
)
    ensures
        work_refusal(parent, parent_kind, root, root_kind, entries) is None <==> {
            &&& parent_kind is None || parent_kind == Some(EntryKind::Directory)
            &&& root_kind is Some ==> root_kind == Some(EntryKind::Directory) && forall|i: int|
                0 <= i < entries.len() && (starts_with(
                    (#[trigger] entries[i]).name@,
                    "staging-"@,
                ) || starts_with(entries[i].name@, "prepared-"@)) ==> entries[i].kind is Directory
                    && entries[i].marked
        },
{
    let f = work_faults(root, entries);
    let n = entries.len() as int;
    lemma_first_refusal(n, f);
    if forall|i: int| 0 <= i < n ==> (#[trigger] f(i)) is None {
        assert forall|i: int|
            0 <= i < n && (starts_with((#[trigger] entries[i]).name@, "staging-"@) || starts_with(
                entries[i].name@,
                "prepared-"@,
            )) implies entries[i].kind is Directory && entries[i].marked by {
            assert(f(i) is None);
        }
    }
    if forall|i: int|
        0 <= i < n && (starts_with((#[trigger] entries[i]).name@, "staging-"@) || starts_with(
            entries[i].name@,
            "prepared-"@,
        )) ==> entries[i].kind is Directory && entries[i].marked {
        assert forall|i: int| 0 <= i < n implies (#[trigger] f(i)) is None by {
            let e = entries[i];
        }
    }
}

// Sources and releases.

/// A source rests for a minute after it failed, by the clock, and not before it failed.
pub proof fn law_sources_rest_for_a_minute(failures: Map<Text, u64>, source: Text, now: u64)
    ensures
        rest_refusal(failures, source, now) is Some <==> failures.contains_key(source)
            && failures[source] <= now < failures[source] + 60,
        rests(last_failure(failures, source), now) <==> failures.contains_key(source)
            && failures[source] <= now < failures[source] + 60,
{
}

/// Releases are compared by their first number, then the second, then the third; of two different
/// releases exactly one comes after the other.
pub proof fn law_releases_are_ordered(a: (usize, usize, usize), b: (usize, usize, usize))
    ensures
        a.0 != b.0 ==> (comes_after(a, b) <==> a.0 > b.0),
        a.0 == b.0 && a.1 != b.1 ==> (comes_after(a, b) <==> a.1 > b.1),
        a.0 == b.0 && a.1 == b.1 ==> (comes_after(a, b) <==> a.2 > b.2),
        a == b || comes_after(a, b) != comes_after(b, a),
{
}

proof fn lemma_split_first(first: Text, rest: Text, c: char)
    requires
        !first.contains(c),
    ensures
        split_on(first + seq![c] + rest, c) == seq![first] + split_on(rest, c),
{
    let s = first + seq![c] + rest;
    let n = first.len() as int;
    assert forall|j: int| 0 <= j < n implies s[j] != c by {
        assert(s[j] == first[j]);
    }
    assert(s[n] == c);
    lemma_find_char(s, c, n);
    assert(s.take(n) =~= first);
    assert(s.skip(n + 1) =~= rest);
}

proof fn lemma_no_split(s: Text, c: char)
    requires
        !s.contains(c),
    ensures
        split_on(s, c) == seq![s],
{
    lemma_find_char_bound(s, c);
    let i = find_char(s, c);
    if i < s.len() {
        assert(s[i] == c);
    }
}

proof fn lemma_release_number(n: usize)
    ensures
        release_part(decimal(n as nat)) == Some(n),
        !decimal(n as nat).contains('.'),
{
    let d = decimal(n as nat);
    law_numbers_are_read_back(n as nat);
    assert(is_digit(d[0]));
    if d.contains('.') {
        let i = d.index_of('.');
        assert(is_digit(d[i]));
    }
    assert(unsigned(d) == d);
}

/// Three numbers with points between them are a release of just these numbers.
pub proof fn law_releases_are_read(a: usize, b: usize, c: usize)
    ensures
        release_of(
            decimal(a as nat) + seq!['.'] + (decimal(b as nat) + seq!['.'] + decimal(c as nat)),
        ) == Some((a, b, c)),
{
    lemma_release_number(a);
    lemma_release_number(b);
    lemma_release_number(c);
    let x = decimal(a as nat);
    let y = decimal(b as nat);
    let z = decimal(c as nat);
    lemma_split_first(x, y + seq!['.'] + z, '.');
    lemma_split_first(y, z, '.');
    lemma_no_split(z, '.');
    let parts = split_on(x + seq!['.'] + (y + seq!['.'] + z), '.');
    assert(parts =~= seq![x, y, z]);
}

/// A release is told exactly where both are stable and the one that was found comes after.
pub proof fn law_only_newer_releases_are_told(current: Text, found: Text)
    ensures
        is_newer(current, found) <==> (release_of(current) matches Some(a) && release_of(
            found,
        ) matches Some(b) && comes_after(b, a)),
{
}

// Rows.

/// A row asks for attention exactly where it has a status of its own, or its projection is known and
/// not in sync. The counts are the numbers of rows that are installed, and that ask for attention.
pub proof fn law_rows_are_counted(rows: Seq<ConfigRowView>, n: int)
    requires
        0 <= n <= rows.len(),
    ensures
        count_installed(rows, n) == rows.take(n).filter(|r: ConfigRowView| r.installed).len(),
        count_attention(rows, n) == rows.take(n).filter(
            |r: ConfigRowView| r.status is Some || (r.sync is Some && !(r.sync->Some_0 is Synced)),
        ).len(),
    decreases n,
{
    reveal(Seq::filter);
    if n > 0 {
        law_rows_are_counted(rows, n - 1);
        assert(rows.take(n).drop_last() =~= rows.take(n - 1));
        assert(rows.take(n).last() == rows[n - 1]);
    } else {
        assert(rows.take(0) =~= Seq::<ConfigRowView>::empty());
    }
}

/// A row that keeps local changes, or is orphaned, shows where its skill is edited exactly where the
/// checkout of its catalog is there.
pub proof fn law_kept_rows_show_their_checkout(row: ConfigRowView, roots: Map<Text, String>)
    ensures
        ({
            let kept = row.sync matches Some(s) && (s is KeepLocal || s is Conflict
                || s is OrphanedLocal);
            &&& kept && roots.contains_key(row.catalog) ==> authoring_path(row, roots) == Some(
                joined_path(joined_path(roots[row.catalog]@, "skills"@), row.name),
            )
            &&& kept && !roots.contains_key(row.catalog) ==> authoring_path(row, roots) is None
            &&& !kept ==> authoring_path(row, roots) == row.authoring
        }),
{
}

/// A catalog is edited where it is installed from exactly where no reference pins it and its source and
/// its checkout are the same directory.
pub proof fn law_canonical_checkouts_are_the_source(registration: CatalogRegistration, checkout: Checkout)
    ensures
        is_canonical(registration, checkout) <==> registration.reference is None
            && checkout.source is Some && checkout.authoring is Some && checkout.source->Some_0@
            == checkout.authoring->Some_0@,
{
    if checkout.source is Some && checkout.authoring is Some && checkout.source->Some_0@
        =~= checkout.authoring->Some_0@ {
        assert(crate::text::opt_view(checkout.source) == crate::text::opt_view(checkout.authoring));
    }
}

} // verus!
