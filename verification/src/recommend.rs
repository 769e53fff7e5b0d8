//! Recommendations: which skills of a catalog suit a project by what it holds.

use vstd::prelude::*;
use crate::catalog::{comma_list, parse_list};
use crate::frontmatter::{field, frontmatter, frontmatter_of, nested_scalar};
use crate::text::{contains, contains_text, list_has, lower_text, lowered, views, Text};

verus! {

/// What a skill asks of a project: names of files in its root, and words.
#[derive(Debug, PartialEq, Eq)]
pub struct Recommend {
    pub files: Vec<String>,
    pub keywords: Vec<String>,
}

/// The list that a field of the frontmatter holds.
pub open spec fn field_list(frontmatter: Text, key: Text) -> Seq<Text> {
    match field(frontmatter, key, true) {
        Some(value) => comma_list(value),
        None => Seq::empty(),
    }
}

fn read_list(frontmatter: &str, key: &str) -> (r: Vec<String>)
    ensures
        views(r@) == field_list(frontmatter@, key@),
{
    match nested_scalar(frontmatter, key) {
        Some(value) => parse_list(value.as_str()),
        None => {
            let out: Vec<String> = Vec::new();
            assert(views(out@) =~= Seq::<Text>::empty());
            out
        },
    }
}

/// Reads what a skill asks of a project, if it asks anything.
pub fn read_recommend(frontmatter: &str) -> (r: Option<Recommend>)
    ensures
        ({
            let files = field_list(frontmatter@, "skiller.recommend.files"@);
            let keywords = field_list(frontmatter@, "skiller.recommend.keywords"@);
            match r {
                Some(wish) => (files.len() > 0 || keywords.len() > 0) && views(wish.files@) == files
                    && views(wish.keywords@) == keywords,
                None => files.len() == 0 && keywords.len() == 0,
            }
        }),
{
    let files = read_list(frontmatter, "skiller.recommend.files");
    let keywords = read_list(frontmatter, "skiller.recommend.keywords");
    assert(views(files@).len() == files@.len() && views(keywords@).len() == keywords@.len());
    if files.len() == 0 && keywords.len() == 0 {
        None
    } else {
        Some(Recommend { files, keywords })
    }
}

/// What was seen of a project: the names in its root, and the beginnings of its guides.
#[derive(Debug)]
pub struct ProjectSeen {
    pub names: Vec<String>,
    pub texts: Vec<String>,
}

/// Whether a word stands in one of the texts, whatever its capitals.
pub open spec fn word_stands(texts: Seq<Text>, word: Text) -> bool {
    exists|i: int|
        0 <= i < texts.len() && contains_text(lower_text(#[trigger] texts[i]), lower_text(word))
}

fn stands(texts: &Vec<String>, word: &str) -> (r: bool)
    ensures
        r == word_stands(views(texts@), word@),
{
    let small = lowered(word);
    let mut i: usize = 0;
    while i < texts.len()
        invariant
            i <= texts@.len(),
            small@ == lower_text(word@),
            forall|j: int|
                0 <= j < i ==> !contains_text(
                    lower_text(#[trigger] views(texts@)[j]),
                    lower_text(word@),
                ),
        decreases texts@.len() - i,
    {
        assert(views(texts@)[i as int] == texts@[i as int]@);
        if contains(lowered(texts[i].as_str()).as_str(), small.as_str()) {
            return true;
        }
        i = i + 1;
    }
    false
}

/// The first `n` of the files that a project has.
pub open spec fn found_files(files: Seq<Text>, names: Seq<Text>, n: int) -> Seq<Text>
    decreases n,
{
    if n <= 0 {
        Seq::empty()
    } else if names.contains(files[n - 1]) {
        found_files(files, names, n - 1).push(files[n - 1])
    } else {
        found_files(files, names, n - 1)
    }
}

/// The first `n` of the words that a project speaks of, in its names or its guides.
pub open spec fn found_words(words: Seq<Text>, names: Seq<Text>, texts: Seq<Text>, n: int) -> Seq<Text>
    decreases n,
{
    if n <= 0 {
        Seq::empty()
    } else if word_stands(names, words[n - 1]) || word_stands(texts, words[n - 1]) {
        found_words(words, names, texts, n - 1).push(words[n - 1])
    } else {
        found_words(words, names, texts, n - 1)
    }
}

/// The reasons for which a skill is recommended: each field that asks for something must find
/// something.
pub open spec fn reasons(files: Seq<Text>, keywords: Seq<Text>, names: Seq<Text>, texts: Seq<Text>) -> Option<
    Seq<Text>,
> {
    let by_file = found_files(files, names, files.len() as int);
    let by_word = found_words(keywords, names, texts, keywords.len() as int);
    if (files.len() == 0 && keywords.len() == 0) || (files.len() > 0 && by_file.len() == 0) || (
    keywords.len() > 0 && by_word.len() == 0) {
        None
    } else {
        Some(by_file + by_word)
    }
}

/// Why a skill is recommended to a project, if it is.
pub fn recommended_by(wish: &Recommend, seen: &ProjectSeen) -> (r: Option<Vec<String>>)
    ensures
        (match r {
            Some(why) => Some(views(why@)),
            None => None,
        }) == reasons(
            views(wish.files@),
            views(wish.keywords@),
            views(seen.names@),
            views(seen.texts@),
        ),
{
    let ghost files = views(wish.files@);
    let ghost words = views(wish.keywords@);
    let ghost names = views(seen.names@);
    let ghost texts = views(seen.texts@);
    let mut why: Vec<String> = Vec::new();
    assert(views(why@) =~= Seq::<Text>::empty());
    let mut i: usize = 0;
    while i < wish.files.len()
        invariant
            i <= wish.files@.len(),
            files == views(wish.files@),
            names == views(seen.names@),
            views(why@) == found_files(files, names, i as int),
        decreases wish.files@.len() - i,
    {
        assert(files[i as int] == wish.files@[i as int]@);
        if list_has(&seen.names, wish.files[i].as_str()) {
            let ghost before = why@;
            why.push(wish.files[i].clone());
            assert(views(why@) =~= views(before).push(files[i as int]));
        }
        i = i + 1;
    }
    let by_file: usize = why.len();
    let ghost first = views(why@);
    if wish.files.len() > 0 && by_file == 0 {
        assert(first.len() == 0);
        return None;
    }
    let mut k: usize = 0;
    assert(first + found_words(words, names, texts, 0) =~= first);
    while k < wish.keywords.len()
        invariant
            k <= wish.keywords@.len(),
            words == views(wish.keywords@),
            names == views(seen.names@),
            texts == views(seen.texts@),
            first.len() == by_file,
            views(why@) == first + found_words(words, names, texts, k as int),
        decreases wish.keywords@.len() - k,
    {
        assert(words[k as int] == wish.keywords@[k as int]@);
        let word = wish.keywords[k].as_str();
        if stands(&seen.names, word) || stands(&seen.texts, word) {
            let ghost before = why@;
            why.push(wish.keywords[k].clone());
            assert(views(why@) =~= views(before).push(words[k as int]));
            assert(views(why@) =~= first + found_words(words, names, texts, k as int + 1));
        }
        k = k + 1;
    }
    assert(views(why@).len() == why@.len());
    if (wish.files.len() == 0 && wish.keywords.len() == 0) || (wish.keywords.len() > 0 && why.len()
        == by_file) {
        return None;
    }
    Some(why)
}

/// Why the skill of a file is recommended, from the frontmatter of that file. One that asks for
/// nothing, or whose frontmatter cannot be read, is not.
pub open spec fn file_reasons(raw: Text, path: Text, names: Seq<Text>, texts: Seq<Text>) -> Seq<Text> {
    match frontmatter_of(raw, path) {
        Ok(fields) => match reasons(
            field_list(fields, "skiller.recommend.files"@),
            field_list(fields, "skiller.recommend.keywords"@),
            names,
            texts,
        ) {
            Some(why) => why,
            None => Seq::empty(),
        },
        Err(_) => Seq::empty(),
    }
}

/// Why the skill of a file is recommended to a project: the reasons, none where it is not.
pub fn skill_reasons(raw: &str, path: &str, seen: &ProjectSeen) -> (r: Vec<String>)
    ensures
        views(r@) == file_reasons(raw@, path@, views(seen.names@), views(seen.texts@)),
{
    let none: Vec<String> = Vec::new();
    assert(views(none@) =~= Seq::<Text>::empty());
    match frontmatter(raw, path) {
        Ok(fields) => match read_recommend(fields.as_str()) {
            Some(wish) => match recommended_by(&wish, seen) {
                Some(why) => why,
                None => none,
            },
            None => none,
        },
        Err(_) => none,
    }
}

/// The files in the root of a project in which words are looked for.
pub open spec fn guides() -> Seq<Text> {
    seq!["package.json"@, "pyproject.toml"@, "Cargo.toml"@, "README.md"@, "AGENTS.md"@]
}

pub fn guide_names() -> (r: Vec<String>)
    ensures
        views(r@) == guides(),
{
    let mut out: Vec<String> = Vec::new();
    out.push(String::from_str("package.json"));
    out.push(String::from_str("pyproject.toml"));
    out.push(String::from_str("Cargo.toml"));
    out.push(String::from_str("README.md"));
    out.push(String::from_str("AGENTS.md"));
    assert(views(out@) =~= guides());
    out
}

/// The bytes of a guide in which words are looked for.
pub const GUIDE_BYTES: usize = 20_000;

/// The beginning of a guide.
pub fn guide_part(bytes: Vec<u8>) -> (r: Vec<u8>)
    ensures
        r@ == bytes@.take(
            if bytes@.len() <= GUIDE_BYTES {
                bytes@.len() as int
            } else {
                GUIDE_BYTES as int
            },
        ),
{
    let mut out = bytes;
    out.truncate(GUIDE_BYTES);
    out
}

/// A project that holds more is recommended all that it was before.
pub proof fn law_recommendations_grow(
    files: Seq<Text>,
    keywords: Seq<Text>,
    names: Seq<Text>,
    texts: Seq<Text>,
    more_names: Seq<Text>,
    more_texts: Seq<Text>,
)
    requires
        reasons(files, keywords, names, texts) is Some,
    ensures
        reasons(files, keywords, names + more_names, texts + more_texts) is Some,
{
    lemma_files_grow(files, names, more_names, files.len() as int);
    lemma_words_grow(keywords, names, texts, more_names, more_texts, keywords.len() as int);
}

proof fn lemma_files_grow(files: Seq<Text>, names: Seq<Text>, more: Seq<Text>, n: int)
    ensures
        found_files(files, names, n).len() <= found_files(files, names + more, n).len(),
    decreases n,
{
    if n > 0 {
        lemma_files_grow(files, names, more, n - 1);
        if names.contains(files[n - 1]) {
            let i = names.index_of(files[n - 1]);
            assert((names + more)[i] == files[n - 1]);
        }
    }
}

proof fn lemma_stands_grow(texts: Seq<Text>, more: Seq<Text>, word: Text)
    requires
        word_stands(texts, word),
    ensures
        word_stands(texts + more, word),
{
    let i = choose|i: int|
        0 <= i < texts.len() && contains_text(lower_text(#[trigger] texts[i]), lower_text(word));
    assert((texts + more)[i] == texts[i]);
}

proof fn lemma_words_grow(
    words: Seq<Text>,
    names: Seq<Text>,
    texts: Seq<Text>,
    more_names: Seq<Text>,
    more_texts: Seq<Text>,
    n: int,
)
    ensures
        found_words(words, names, texts, n).len() <= found_words(
            words,
            names + more_names,
            texts + more_texts,
            n,
        ).len(),
    decreases n,
{
    if n > 0 {
        lemma_words_grow(words, names, texts, more_names, more_texts, n - 1);
        if word_stands(names, words[n - 1]) {
            lemma_stands_grow(names, more_names, words[n - 1]);
        } else if word_stands(texts, words[n - 1]) {
            lemma_stands_grow(texts, more_texts, words[n - 1]);
        }
    }
}

} // verus!
