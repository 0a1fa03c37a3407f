//! The files to search: which are taken up, which are left out by the user's expressions, and
//! which are worth parsing.
use regex::Regex;
use tree_sitter::{LanguageError, Tree};
use vstd::prelude::*;
use vstd::utf8::{decode_utf8, encode_utf8, valid_utf8};

use crate::regexes::{compiled, regex_finds};
use crate::syntax::{language_check, may_read, parse, tree_syntax, Grammars};
use crate::text::{contains_text, find_text, has_text, starts_with_char, views};

verus! {

/// Whether a name, if it is text at all, begins with a dot.
pub fn is_hidden(file_name: Option<&str>) -> (hidden: bool)
    ensures
        hidden == (file_name is Some && file_name->Some_0@.len() > 0 && file_name->Some_0@[0]
            == '.'),
{
    match file_name {
        Some(name) => starts_with_char(name, '.'),
        None => false,
    }
}

/// A file is taken up if it is no directory and has one of the wanted extensions; without wanted
/// extensions every file is. An extension that is no text counts as empty.
pub open spec fn wanted(
    is_dir: bool,
    extension: Option<Option<&str>>,
    extensions: Seq<Seq<char>>,
) -> bool {
    !is_dir && (extensions.len() == 0 || match extension {
        None => false,
        Some(None) => extensions.contains(seq![]),
        Some(Some(text)) => extensions.contains(text@),
    })
}

/// Whether an entry of a directory is a file to search.
pub fn is_wanted(is_dir: bool, extension: Option<Option<&str>>, extensions: &Vec<String>) -> (yes:
    bool)
    ensures
        yes == wanted(is_dir, extension, views(extensions@)),
{
    if is_dir {
        return false;
    }
    if extensions.is_empty() {
        return true;
    }
    match extension {
        None => false,
        Some(None) => {
            proof {
                reveal_strlit("");
            }
            assert(""@ =~= seq![]);
            has_text(extensions, "")
        },
        Some(Some(text)) => has_text(extensions, text),
    }
}

/// The outcome of compiling several expressions: all of them, or the first error.
pub open spec fn compiled_all(patterns: Seq<Seq<char>>) -> Result<Seq<Regex>, regex::Error>
    decreases patterns.len(),
{
    if patterns.len() == 0 {
        Ok(seq![])
    } else {
        match compiled_all(patterns.drop_last()) {
            Err(error) => Err(error),
            Ok(list) => match compiled(patterns.last()) {
                Err(error) => Err(error),
                Ok(re) => Ok(list.push(re)),
            },
        }
    }
}

proof fn lemma_error_stays(patterns: Seq<Seq<char>>, n: int)
    requires
        0 <= n <= patterns.len(),
        compiled_all(patterns.take(n)) is Err,
    ensures
        compiled_all(patterns) == compiled_all(patterns.take(n)),
    decreases patterns.len(),
{
    if n == patterns.len() {
        assert(patterns.take(n) == patterns);
    } else {
        assert(patterns.drop_last().take(n) == patterns.take(n));
        lemma_error_stays(patterns.drop_last(), n);
    }
}

/// Compiles several expressions.
pub fn compile_all(patterns: &[String]) -> (outcome: Result<Vec<Regex>, regex::Error>)
    ensures
        match compiled_all(views(patterns@)) {
            Ok(list) => outcome is Ok && outcome->Ok_0@ == list,
            Err(error) => outcome == Err::<Vec<Regex>, regex::Error>(error),
        },
{
    let ghost all = views(patterns@);
    let mut list: Vec<Regex> = Vec::new();
    let mut i: usize = 0;
    while i < patterns.len()
        invariant
            i <= patterns@.len(),
            all == views(patterns@),
            compiled_all(all.take(i as int)) == Ok::<Seq<Regex>, regex::Error>(list@),
        decreases patterns@.len() - i,
    {
        assert(all.take(i + 1).drop_last() == all.take(i as int));
        assert(all.take(i + 1).last() == patterns@[i as int]@);
        match Regex::new(patterns[i].as_str()) {
            Ok(re) => list.push(re),
            Err(error) => {
                proof {
                    lemma_error_stays(all, i + 1);
                }
                return Err(error);
            },
        }
        i = i + 1;
    }
    assert(all.take(i as int) == all);
    Ok(list)
}

/// One of the expressions matches in `text`.
pub open spec fn any_finds(list: Seq<Regex>, text: Seq<char>) -> bool {
    exists|k: int| 0 <= k < list.len() && regex_finds(#[trigger] list[k], text)
}

/// Whether one of the expressions matches in `text`.
pub fn any_match(list: &Vec<Regex>, text: &str) -> (found: bool)
    ensures
        found == any_finds(list@, text@),
{
    let mut k: usize = 0;
    while k < list.len()
        invariant
            k <= list@.len(),
            forall|j: int| 0 <= j < k ==> !regex_finds(#[trigger] list@[j], text@),
        decreases list@.len() - k,
    {
        if list[k].is_match(text) {
            assert(regex_finds(list@[k as int], text@));
            return true;
        }
        k = k + 1;
    }
    false
}

/// A file that was found.
pub struct FoundFile<P> {
    /// How to open the file.
    pub path: P,
    /// The path as text.
    pub shown: String,
    /// The file's size.
    pub size: u64,
}

/// The expressions that choose among files.
pub struct FileFilter {
    /// Files whose path one of these matches are left out.
    pub excluded: Vec<Regex>,
    /// If there are any, only files whose path one of these matches are kept.
    pub included: Vec<Regex>,
}

/// A path is kept: no expression excludes it, and one includes it if there are such.
pub open spec fn admitted(excluded: Seq<Regex>, included: Seq<Regex>, path: Seq<char>) -> bool {
    &&& !any_finds(excluded, path)
    &&& included.len() == 0 || any_finds(included, path)
}

/// The size of all files together.
pub open spec fn size_sum<P>(files: Seq<FoundFile<P>>) -> int
    decreases files.len(),
{
    if files.len() == 0 {
        0
    } else {
        size_sum(files.drop_last()) + files.last().size
    }
}

impl FileFilter {
    /// The files that are kept, in order.
    pub open spec fn kept<P>(self, files: Seq<FoundFile<P>>) -> Seq<FoundFile<P>> {
        files.filter(
            |file: FoundFile<P>| admitted(self.excluded@, self.included@, file.shown@),
        )
    }

    /// The files that are kept, and the size of all that were found.
    pub open spec fn collected<P>(self, files: Seq<FoundFile<P>>) -> (Seq<FoundFile<P>>, int) {
        (self.kept(files), size_sum(files))
    }

    /// Compiles the expressions, those that exclude first.
    pub fn compile(excluded: &[String], included: &[String]) -> (outcome: Result<
        FileFilter,
        regex::Error,
    >)
        ensures
            match compiled_all(views(excluded@)) {
                Err(error) => outcome == Err::<FileFilter, regex::Error>(error),
                Ok(out) => match compiled_all(views(included@)) {
                    Err(error) => outcome == Err::<FileFilter, regex::Error>(error),
                    Ok(into) => outcome is Ok && outcome->Ok_0.excluded@ == out
                        && outcome->Ok_0.included@ == into,
                },
            },
    {
        let excluded = match compile_all(excluded) {
            Ok(list) => list,
            Err(error) => return Err(error),
        };
        let included = match compile_all(included) {
            Ok(list) => list,
            Err(error) => return Err(error),
        };
        Ok(FileFilter { excluded, included })
    }

    /// Whether a path is kept.
    pub fn admits(&self, path: &str) -> (yes: bool)
        ensures
            yes == admitted(self.excluded@, self.included@, path@),
    {
        if any_match(&self.excluded, path) {
            return false;
        }
        if self.included.is_empty() {
            return true;
        }
        any_match(&self.included, path)
    }

    /// Keeps the files whose path is kept.
    pub fn retain<P>(&self, files: Vec<FoundFile<P>>) -> (kept: Vec<FoundFile<P>>)
        ensures
            kept@ == self.kept(files@),
    {
        let ghost all = files@;
        let ghost keep = |file: FoundFile<P>|
            admitted(self.excluded@, self.included@, file.shown@);
        let mut kept: Vec<FoundFile<P>> = Vec::new();
        proof {
            reveal(Seq::filter);
        }
        for file in it: files
            invariant
                it.seq() == all,
                keep == |file: FoundFile<P>|
                    admitted(self.excluded@, self.included@, file.shown@),
                kept@ == all.take(it.index()).filter(keep),
        {
            proof {
                reveal(Seq::filter);
                assert(all.take(it.index() + 1).drop_last() == all.take(it.index()));
            }
            if self.admits(file.shown.as_str()) {
                kept.push(file);
            }
        }
        assert(all.take(all.len() as int) == all);
        kept
    }

    /// Keeps the files whose path is kept, and tells the size of all files that were found.
    pub fn collect_files<P>(&self, files: Vec<FoundFile<P>>) -> (collected: (
        Vec<FoundFile<P>>,
        u64,
    ))
        requires
            size_sum(files@) <= u64::MAX,
        ensures
            (collected.0@, collected.1 as int) == self.collected(files@),
    {
        let total = total_size(&files);
        (self.retain(files), total)
    }
}

proof fn lemma_sum_grows<P>(files: Seq<FoundFile<P>>, n: int)
    requires
        0 <= n <= files.len(),
    ensures
        0 <= size_sum(files.take(n)) <= size_sum(files),
    decreases files.len(),
{
    if n == files.len() {
        assert(files.take(n) == files);
        if n > 0 {
            lemma_sum_grows(files.drop_last(), n - 1);
        }
    } else {
        assert(files.drop_last().take(n) == files.take(n));
        lemma_sum_grows(files.drop_last(), n);
    }
}

/// Adds up the sizes of files.
pub fn total_size<P>(files: &Vec<FoundFile<P>>) -> (total: u64)
    requires
        size_sum(files@) <= u64::MAX,
    ensures
        total == size_sum(files@),
{
    let mut total: u64 = 0;
    let mut i: usize = 0;
    while i < files.len()
        invariant
            i <= files@.len(),
            total == size_sum(files@.take(i as int)),
            size_sum(files@) <= u64::MAX,
        decreases files@.len() - i,
    {
        proof {
            assert(files@.take(i + 1).drop_last() == files@.take(i as int));
            lemma_sum_grows(files@, i + 1);
        }
        total = total + files[i].size;
        i = i + 1;
    }
    assert(files@.take(i as int) == files@);
    total
}

/// Without expressions every file is kept.
pub proof fn no_expressions_keep_all<P>(filter: FileFilter, files: Seq<FoundFile<P>>)
    requires
        filter.excluded@.len() == 0,
        filter.included@.len() == 0,
    ensures
        filter.kept(files) == files,
    decreases files.len(),
{
    reveal(Seq::filter);
    if files.len() > 0 {
        no_expressions_keep_all(filter, files.drop_last());
        assert(files.drop_last().push(files.last()) == files);
    }
}

/// A path that is excluded is left out, also if it is included.
pub proof fn exclusion_wins(filter: FileFilter, path: Seq<char>)
    requires
        any_finds(filter.excluded@, path),
    ensures
        !admitted(filter.excluded@, filter.included@, path),
{
}

/// A further expression that excludes never lets a path in; a further one that includes, where
/// there are some already, never keeps a path out.
pub proof fn expressions_are_monotonic(
    excluded: Seq<Regex>,
    included: Seq<Regex>,
    re: Regex,
    path: Seq<char>,
)
    ensures
        admitted(excluded.push(re), included, path) ==> admitted(excluded, included, path),
        included.len() > 0 && admitted(excluded, included, path) ==> admitted(
            excluded,
            included.push(re),
            path,
        ),
{
    if any_finds(excluded, path) {
        let k = choose|k: int| 0 <= k < excluded.len() && regex_finds(#[trigger] excluded[k], path);
        assert(regex_finds(excluded.push(re)[k], path));
    }
    if any_finds(included, path) {
        let k = choose|k: int| 0 <= k < included.len() && regex_finds(#[trigger] included[k], path);
        assert(regex_finds(included.push(re)[k], path));
    }
}

proof fn lemma_exclusion_filters<P>(
    one: FileFilter,
    two: FileFilter,
    re: Regex,
    files: Seq<FoundFile<P>>,
)
    requires
        two.excluded@ == one.excluded@.push(re),
        two.included@ == one.included@,
    ensures
        two.kept(files) == one.kept(files).filter(
            |file: FoundFile<P>| !regex_finds(re, file.shown@),
        ),
    decreases files.len(),
{
    reveal(Seq::filter);
    let clear = |file: FoundFile<P>| !regex_finds(re, file.shown@);
    if files.len() > 0 {
        let head = files.drop_last();
        let path = files.last().shown@;
        lemma_exclusion_filters(one, two, re, head);
        assert(any_finds(two.excluded@, path) <==> any_finds(one.excluded@, path) || regex_finds(
            re,
            path,
        )) by {
            if any_finds(one.excluded@, path) {
                let k = choose|k: int|
                    0 <= k < one.excluded@.len() && regex_finds(#[trigger] one.excluded@[k], path);
                assert(regex_finds(two.excluded@[k], path));
            }
            assert(two.excluded@[one.excluded@.len() as int] == re);
            if any_finds(two.excluded@, path) {
                let k = choose|k: int|
                    0 <= k < two.excluded@.len() && regex_finds(#[trigger] two.excluded@[k], path);
                if k < one.excluded@.len() {
                    assert(regex_finds(one.excluded@[k], path));
                }
            }
        }
        let kept = one.kept(head);
        assert(kept.push(files.last()).drop_last() =~= kept);
        assert(kept.push(files.last()).filter(clear) =~= if clear(files.last()) {
            kept.filter(clear).push(files.last())
        } else {
            kept.filter(clear)
        });
    }
}

/// One more expression that excludes leaves out exactly the files whose path it matches, and
/// changes neither the order of the others nor the size of all files.
pub proof fn further_exclusion_filters<P>(
    excluded: Seq<Seq<char>>,
    extra: Seq<char>,
    one: FileFilter,
    two: FileFilter,
    files: Seq<FoundFile<P>>,
)
    requires
        compiled(extra) is Ok,
        compiled_all(excluded) == Ok::<Seq<Regex>, regex::Error>(one.excluded@),
        compiled_all(excluded.push(extra)) == Ok::<Seq<Regex>, regex::Error>(two.excluded@),
        two.included@ == one.included@,
    ensures
        two.collected(files).0 == one.collected(files).0.filter(
            |file: FoundFile<P>| !regex_finds(compiled(extra)->Ok_0, file.shown@),
        ),
        two.collected(files).1 == one.collected(files).1,
{
    assert(excluded.push(extra).drop_last() =~= excluded);
    lemma_exclusion_filters(one, two, compiled(extra)->Ok_0, files);
}

/// A query, and the identifiers that every match of it has to hold.
pub struct WorkItem<Q> {
    /// The query.
    pub qt: Q,
    /// The identifiers.
    pub identifiers: Vec<String>,
}

/// The source holds all identifiers of the query.
pub open spec fn holds_identifiers(source: Seq<char>, identifiers: Seq<Seq<char>>) -> bool {
    forall|k: int|
        0 <= k < identifiers.len() ==> contains_text(source, #[trigger] identifiers[k])
}

/// One of the queries may have a match in the source.
pub open spec fn may_match<Q>(source: Seq<char>, work: Seq<WorkItem<Q>>) -> bool {
    exists|w: int|
        0 <= w < work.len() && holds_identifiers(
            source,
            views((#[trigger] work[w]).identifiers@),
        )
}

fn has_identifiers(source: &str, identifiers: &Vec<String>) -> (yes: bool)
    ensures
        yes == holds_identifiers(source@, views(identifiers@)),
{
    let mut k: usize = 0;
    while k < identifiers.len()
        invariant
            k <= identifiers@.len(),
            forall|j: int|
                0 <= j < k ==> contains_text(source@, #[trigger] views(identifiers@)[j]),
        decreases identifiers@.len() - k,
    {
        if !find_text(source, identifiers[k].as_str()) {
            assert(!contains_text(source@, views(identifiers@)[k as int]));
            return false;
        }
        k = k + 1;
    }
    true
}

/// Whether one of the queries may have a match in the source.
pub fn potential_match<Q>(source: &str, work: &[WorkItem<Q>]) -> (yes: bool)
    ensures
        yes == may_match(source@, work@),
{
    let mut w: usize = 0;
    while w < work.len()
        invariant
            w <= work@.len(),
            forall|v: int|
                0 <= v < w ==> !holds_identifiers(
                    source@,
                    views((#[trigger] work@[v]).identifiers@),
                ),
        decreases work@.len() - w,
    {
        if has_identifiers(source, &work[w].identifiers) {
            assert(holds_identifiers(source@, views(work@[w as int].identifiers@)));
            return true;
        }
        w = w + 1;
    }
    false
}

/// The text of some bytes, with what is no UTF-8 replaced.
pub uninterp spec fn lossy_text(bytes: Seq<u8>) -> Seq<char>;

/// Calls `String::from_utf8_lossy`, which reads bytes as UTF-8 and puts replacement characters
/// where they are not. Bytes that are UTF-8 throughout are read as they are.
#[verifier::external_body]
fn read_lossily(bytes: &[u8]) -> (text: String)
    ensures
        text@ == lossy_text(bytes@),
        valid_utf8(bytes@) ==> text@ == decode_utf8(bytes@),
{
    String::from_utf8_lossy(bytes).into_owned()
}

/// Why a file was not parsed though it should have been.
pub enum ScreenError {
    /// The grammar cannot be used.
    Grammar(LanguageError),
    /// The text is too long for a syntax tree.
    TooLong,
}

/// What comes of a file with the given text.
pub open spec fn screened<Q>(
    text: Seq<char>,
    work: Option<&[WorkItem<Q>]>,
    language: tree_sitter::Language,
    outcome: Result<Option<(Tree, String)>, ScreenError>,
) -> bool {
    if work is Some && !may_match(text, work->Some_0@) {
        outcome matches Ok(None)
    } else if encode_utf8(text).len() > u32::MAX {
        outcome matches Err(ScreenError::TooLong)
    } else {
        match language_check(language) {
            Err(error) => outcome matches Err(ScreenError::Grammar(e)) && e == error,
            Ok(_) => {
                &&& outcome matches Ok(Some(parsed))
                &&& parsed.1@ == text
                &&& may_read(language, text, tree_syntax(parsed.0))
            },
        }
    }
}

/// Parses a text, unless it is known what is searched for and the text cannot hold it.
pub fn screen_text<Q>(
    text: String,
    work: Option<&[WorkItem<Q>]>,
    is_cpp: bool,
    grammars: &Grammars,
) -> (outcome: Result<Option<(Tree, String)>, ScreenError>)
    ensures
        screened(text@, work, grammars.choice(is_cpp), outcome),
{
    if let Some(items) = work {
        if !potential_match(text.as_str(), items) {
            return Ok(None);
        }
    }
    if text.as_str().as_bytes().len() > u32::MAX as usize {
        return Err(ScreenError::TooLong);
    }
    match parse(text.as_str(), is_cpp, grammars) {
        Ok(tree) => Ok(Some((tree, text))),
        Err(e) => Err(ScreenError::Grammar(e)),
    }
}

/// Parses a file, unless it could not be read, or it is known what is searched for and the file
/// cannot hold it.
pub fn maybe_parse<Q>(
    content: Option<Vec<u8>>,
    work: Option<&[WorkItem<Q>]>,
    is_cpp: bool,
    grammars: &Grammars,
) -> (outcome: Result<Option<(Tree, String)>, ScreenError>)
    ensures
        content is None ==> outcome matches Ok(None),
        content is Some ==> screened(
            lossy_text(content->Some_0@),
            work,
            grammars.choice(is_cpp),
            outcome,
        ),
        content is Some && valid_utf8(content->Some_0@) ==> screened(
            decode_utf8(content->Some_0@),
            work,
            grammars.choice(is_cpp),
            outcome,
        ),
{
    match content {
        Some(bytes) => {
            let text = read_lossily(bytes.as_slice());
            screen_text(text, work, is_cpp, grammars)
        },
        None => Ok(None),
    }
}

/// A query without identifiers may match anywhere.
pub proof fn query_without_identifiers_may_match<Q>(
    source: Seq<char>,
    work: Seq<WorkItem<Q>>,
    w: int,
)
    requires
        0 <= w < work.len(),
        work[w].identifiers@.len() == 0,
    ensures
        may_match(source, work),
{
    assert(holds_identifiers(source, views(work[w].identifiers@)));
}

/// Which files are taken up: no directories; without wanted extensions all others, else those with
/// one of them.
pub proof fn wanted_files(
    is_dir: bool,
    extension: Option<Option<&str>>,
    extensions: Seq<Seq<char>>,
)
    ensures
        is_dir ==> !wanted(is_dir, extension, extensions),
        !is_dir && extensions.len() == 0 ==> wanted(is_dir, extension, extensions),
        !is_dir && extensions.len() > 0 && extension is None ==> !wanted(
            is_dir,
            extension,
            extensions,
        ),
        !is_dir && extensions.len() > 0 && extension is Some ==> wanted(
            is_dir,
            extension,
            extensions,
        ) == extensions.contains(
            match extension->Some_0 {
                Some(text) => text@,
                None => Seq::<char>::empty(),
            },
        ),
{
}

/// Several expressions compile exactly if each of them does, to one for each, in order.
pub proof fn expressions_compile_one_by_one(patterns: Seq<Seq<char>>, n: int)
    requires
        0 <= n <= patterns.len(),
        forall|i: int| 0 <= i < n ==> compiled(#[trigger] patterns[i]) is Ok,
    ensures
        n == patterns.len() ==> {
            &&& compiled_all(patterns) is Ok
            &&& compiled_all(patterns)->Ok_0.len() == n
            &&& forall|i: int|
                0 <= i < n ==> #[trigger] compiled_all(patterns)->Ok_0[i] == compiled(
                    patterns[i],
                )->Ok_0
        },
        n < patterns.len() && compiled(patterns[n]) is Err ==> compiled_all(patterns) == Err::<
            Seq<Regex>,
            regex::Error,
        >(compiled(patterns[n])->Err_0),
    decreases n,
{
    if n == patterns.len() {
        if n > 0 {
            let head = patterns.drop_last();
            assert forall|i: int| 0 <= i < n - 1 implies compiled(#[trigger] head[i]) is Ok by {
                assert(compiled(patterns[i]) is Ok);
            }
            expressions_compile_one_by_one(head, n - 1);
            assert(compiled(patterns[n - 1]) is Ok);
            assert forall|i: int| 0 <= i < n implies #[trigger] compiled_all(patterns)->Ok_0[i]
                == compiled(patterns[i])->Ok_0 by {
                if i < n - 1 {
                    assert(compiled_all(head)->Ok_0[i] == compiled(head[i])->Ok_0);
                }
            }
        }
    } else if compiled(patterns[n]) is Err {
        let head = patterns.take(n);
        assert forall|i: int| 0 <= i < n implies compiled(#[trigger] head[i]) is Ok by {
            assert(compiled(patterns[i]) is Ok);
        }
        lemma_sound_expressions(head);
        assert(patterns.take(n + 1).drop_last() =~= head);
        assert(patterns.take(n + 1).last() == patterns[n]);
        lemma_error_stays(patterns, n + 1);
    }
}

proof fn lemma_sound_expressions(patterns: Seq<Seq<char>>)
    requires
        forall|i: int| 0 <= i < patterns.len() ==> compiled(#[trigger] patterns[i]) is Ok,
    ensures
        compiled_all(patterns) is Ok,
    decreases patterns.len(),
{
    if patterns.len() > 0 {
        let head = patterns.drop_last();
        assert forall|i: int| 0 <= i < head.len() implies compiled(#[trigger] head[i]) is Ok by {
            assert(compiled(patterns[i]) is Ok);
        }
        lemma_sound_expressions(head);
        assert(compiled(patterns[patterns.len() - 1]) is Ok);
    }
}

/// A path is kept exactly if no excluding expression matches in it and, where there are including
/// expressions, one of them does.
pub proof fn kept_paths(excluded: Seq<Regex>, included: Seq<Regex>, path: Seq<char>)
    ensures
        admitted(excluded, included, path) <==> {
            &&& forall|re: Regex| #[trigger] excluded.contains(re) ==> !regex_finds(re, path)
            &&& included.len() > 0 ==> exists|re: Regex| #[trigger]
                included.contains(re) && regex_finds(re, path)
        },
{
    lemma_one_finds(excluded, path);
    lemma_one_finds(included, path);
}

proof fn lemma_one_finds(list: Seq<Regex>, path: Seq<char>)
    ensures
        any_finds(list, path) <==> exists|re: Regex| #[trigger]
            list.contains(re) && regex_finds(re, path),
{
    if any_finds(list, path) {
        let k = choose|k: int| 0 <= k < list.len() && regex_finds(#[trigger] list[k], path);
        assert(list.contains(list[k]));
    }
    if exists|re: Regex| #[trigger] list.contains(re) && regex_finds(re, path) {
        let re = choose|re: Regex| #[trigger] list.contains(re) && regex_finds(re, path);
        let k = choose|k: int| 0 <= k < list.len() && list[k] == re;
        assert(regex_finds(list[k], path));
    }
}

/// A further file is kept exactly if no excluding expression matches in its path and, where there
/// are including expressions, one of them does. The others stay as they are.
pub proof fn one_more_file<P>(filter: FileFilter, files: Seq<FoundFile<P>>, file: FoundFile<P>)
    ensures
        filter.kept(Seq::<FoundFile<P>>::empty()) == Seq::<FoundFile<P>>::empty(),
        filter.collected(files).0 == filter.kept(files),
        filter.collected(files).1 == size_sum(files),
        ({
            let out = exists|re: Regex| #[trigger]
                filter.excluded@.contains(re) && regex_finds(re, file.shown@);
            let into = exists|re: Regex| #[trigger]
                filter.included@.contains(re) && regex_finds(re, file.shown@);
            filter.kept(files.push(file)) == if !out && (filter.included@.len() == 0 || into) {
                filter.kept(files).push(file)
            } else {
                filter.kept(files)
            }
        }),
{
    reveal(Seq::filter);
    assert(files.push(file).drop_last() =~= files);
    lemma_one_finds(filter.excluded@, file.shown@);
    lemma_one_finds(filter.included@, file.shown@);
}

/// The size of all files grows by the size of each.
pub proof fn sizes_add_up<P>(files: Seq<FoundFile<P>>, file: FoundFile<P>)
    ensures
        size_sum(Seq::<FoundFile<P>>::empty()) == 0,
        size_sum(files.push(file)) == size_sum(files) + file.size,
{
    assert(files.push(file).drop_last() =~= files);
}

/// All identifiers of the query occur in the source.
pub open spec fn all_occur<Q>(source: Seq<char>, item: WorkItem<Q>) -> bool {
    forall|k: int|
        0 <= k < item.identifiers@.len() ==> contains_text(
            source,
            (#[trigger] item.identifiers@[k])@,
        )
}

/// A source may match exactly if all identifiers of one of the queries occur in it, however many
/// there are.
pub proof fn sources_with_all_identifiers_may_match<Q>(source: Seq<char>, work: Seq<WorkItem<Q>>)
    ensures
        may_match(source, work) <==> exists|w: int|
            0 <= w < work.len() && all_occur(source, #[trigger] work[w]),
{
    assert forall|w: int| 0 <= w < work.len() implies holds_identifiers(
        source,
        views((#[trigger] work[w]).identifiers@),
    ) == all_occur(source, work[w]) by {
        let item = work[w];
        let names = views(item.identifiers@);
        if holds_identifiers(source, names) {
            assert forall|k: int| 0 <= k < item.identifiers@.len() implies contains_text(
                source,
                (#[trigger] item.identifiers@[k])@,
            ) by {
                assert(contains_text(source, names[k]));
            }
        }
        if all_occur(source, item) {
            assert forall|k: int| 0 <= k < names.len() implies contains_text(
                source,
                #[trigger] names[k],
            ) by {
                assert(contains_text(source, item.identifiers@[k]@));
            }
        }
    }
}

/// No file is lost: if it is not known what is searched for, or if all identifiers of one of the
/// queries occur in the text, a text that is not too long is parsed.
pub proof fn files_that_may_match_are_parsed<Q>(
    text: Seq<char>,
    work: Option<&[WorkItem<Q>]>,
    w: int,
    language: tree_sitter::Language,
    outcome: Result<Option<(Tree, String)>, ScreenError>,
)
    requires
        screened(text, work, language, outcome),
        work is Some ==> 0 <= w < work->Some_0@.len() && forall|k: int|
            0 <= k < work->Some_0@[w].identifiers@.len() ==> contains_text(
                text,
                (#[trigger] work->Some_0@[w].identifiers@[k])@,
            ),
        encode_utf8(text).len() <= u32::MAX,
        language_check(language) is Ok,
    ensures
        outcome is Ok && outcome->Ok_0 is Some,
        outcome->Ok_0->Some_0.1@ == text,
        may_read(language, text, tree_syntax(outcome->Ok_0->Some_0.0)),
{
    if work is Some {
        assert(all_occur(text, work->Some_0@[w]));
        sources_with_all_identifiers_may_match(text, work->Some_0@);
    }
}

/// A text is passed over only if it is known what is searched for, and each query has an identifier
/// that does not occur in it. Then it is never parsed.
pub proof fn only_hopeless_files_are_passed_over<Q>(
    text: Seq<char>,
    work: Option<&[WorkItem<Q>]>,
    language: tree_sitter::Language,
    outcome: Result<Option<(Tree, String)>, ScreenError>,
)
    requires
        screened(text, work, language, outcome),
    ensures
        (outcome is Ok && outcome->Ok_0 is None) <==> work is Some && forall|w: int|
            0 <= w < work->Some_0@.len() ==> !all_occur(text, #[trigger] work->Some_0@[w]),
        outcome matches Err(ScreenError::TooLong) ==> encode_utf8(text).len() > u32::MAX,
        outcome matches Err(ScreenError::Grammar(e)) ==> language_check(language) == Err::<
            (),
            LanguageError,
        >(e),
{
    if work is Some {
        sources_with_all_identifiers_may_match(text, work->Some_0@);
    }
}

/// A source in which all identifiers of a query occur may match, however many there are.
pub proof fn identifiers_that_occur_may_match<Q>(
    source: Seq<char>,
    work: Seq<WorkItem<Q>>,
    w: int,
)
    requires
        0 <= w < work.len(),
        forall|k: int|
            0 <= k < work[w].identifiers@.len() ==> contains_text(
                source,
                (#[trigger] work[w].identifiers@[k])@,
            ),
    ensures
        may_match(source, work),
{
    assert(all_occur(source, work[w]));
    sources_with_all_identifiers_may_match(source, work);
}

/// An identifier that is missing rules its query out: a source may match only if some query has
/// none that is missing.
pub proof fn missing_identifiers_rule_out<Q>(
    source: Seq<char>,
    work: Seq<WorkItem<Q>>,
    missing: spec_fn(int) -> int,
)
    requires
        forall|w: int|
            0 <= w < work.len() ==> 0 <= missing(w) < (#[trigger] work[w]).identifiers@.len()
                && !contains_text(source, work[w].identifiers@[missing(w)]@),
    ensures
        !may_match(source, work),
{
    sources_with_all_identifiers_may_match(source, work);
    if may_match(source, work) {
        let w = choose|w: int| 0 <= w < work.len() && all_occur(source, #[trigger] work[w]);
        assert(contains_text(source, work[w].identifiers@[missing(w)]@));
    }
}

} // verus!
