//! Loader for XLIFF localization bundles.
//!
//! A bundle is a directory with one subdirectory per locale, each holding a
//! `strings.xliff` document.  Every translation string is run through the
//! placeholder parser in [`argument`], which splits it at `%<N>` markers and
//! rewrites them into named `{arg_<N>}` substitution slots.

pub mod argument;
pub mod xliff;

use vstd::prelude::*;

use crate::xliff::{RawXliff, Xliff};

verus! {

/// Why a load failed.  Every kind aborts the whole load: a failed load never
/// returns a partial bundle.
#[derive(Debug)]
pub enum XliffError {
    /// The source root could not be enumerated.
    CouldNotReadRoot { message: String },
    /// An entry under the source root is not a per-locale directory.
    NotADirectory { path: String },
    /// A directory's name is not valid text.
    InvalidLocaleName { name: String },
    /// A locale's `strings.xliff` is missing or unreadable.
    CouldNotOpenFile { locale: String, message: String },
    /// A locale's `strings.xliff` does not match the document schema.
    Deserialize { locale: String, message: String },
}

/// What the scan of the source root observed for one of its entries.  The
/// caller walks the directory and reports each entry here as plain values;
/// the loader turns the observations into a bundle or an error.
#[derive(Debug)]
pub enum EntryOutcome {
    /// The entry is not a directory.
    NotADirectory { path: String },
    /// The entry's name is not valid text.
    InvalidName { name: String },
    /// `<entry>/strings.xliff` could not be opened or read.
    OpenFailed { locale: String, message: String },
    /// `<entry>/strings.xliff` does not match the document schema.
    ParseFailed { locale: String, message: String },
    /// `<entry>/strings.xliff` was read and deserialized; its raw text is
    /// handed over for placeholder parsing.
    Loaded { locale: String, document: RawXliff },
}

/// A localization bundle: one parsed document per locale, keyed by the
/// locale's directory name.  Keys are unique; their order carries no meaning.
#[derive(Debug)]
pub struct StringFiles {
    pub files: Vec<(String, Xliff)>,
}

/// Some pair of `s` carries the locale key `loc`.
pub open spec fn has_locale(s: Seq<(String, Xliff)>, loc: Seq<char>) -> bool {
    exists|j: int| 0 <= j < s.len() && (#[trigger] s[j]).0@ == loc
}

/// `o` is a loaded document for the locale `loc`.
pub open spec fn is_loaded_with(o: EntryOutcome, loc: Seq<char>) -> bool {
    match o {
        EntryOutcome::Loaded { locale, document } => locale@ == loc,
        _ => false,
    }
}

/// Every entry of the scan produced a document.
pub open spec fn all_loaded(s: Seq<EntryOutcome>) -> bool {
    forall|k: int| 0 <= k < s.len() ==> #[trigger] s[k] is Loaded
}

/// Some outcome of `s` is a loaded document for the locale `loc`.
pub open spec fn loaded_locale(s: Seq<EntryOutcome>, loc: Seq<char>) -> bool {
    exists|k: int| 0 <= k < s.len() && is_loaded_with(#[trigger] s[k], loc)
}

/// The raw document of the last loaded outcome of `s` whose locale is `loc`
/// (the one a later observation of the same directory name would overwrite).
pub open spec fn last_raw(s: Seq<EntryOutcome>, loc: Seq<char>) -> RawXliff
    decreases s.len(),
{
    if s.len() == 0 {
        arbitrary()
    } else if is_loaded_with(s.last(), loc) {
        match s.last() {
            EntryOutcome::Loaded { locale, document } => document,
            _ => arbitrary(),
        }
    } else {
        last_raw(s.drop_last(), loc)
    }
}

/// `e` is the error that reports the failed observation `o`, carrying the
/// same path, locale and underlying message.
pub open spec fn error_matches(e: XliffError, o: EntryOutcome) -> bool {
    match (o, e) {
        (
            EntryOutcome::NotADirectory { path: p },
            XliffError::NotADirectory { path: q },
        ) => p@ == q@,
        (
            EntryOutcome::InvalidName { name: n },
            XliffError::InvalidLocaleName { name: m },
        ) => n@ == m@,
        (
            EntryOutcome::OpenFailed { locale: l, message: s },
            XliffError::CouldNotOpenFile { locale: l2, message: s2 },
        ) => l@ == l2@ && s@ == s2@,
        (
            EntryOutcome::ParseFailed { locale: l, message: s },
            XliffError::Deserialize { locale: l2, message: s2 },
        ) => l@ == l2@ && s@ == s2@,
        _ => false,
    }
}

/// `b` is the bundle built from the scan `outs`: its keys are exactly the
/// locales of the loaded outcomes, and each key's document is the parse of
/// the last raw document observed for that key.
pub open spec fn bundle_from_outcomes(b: StringFiles, outs: Seq<EntryOutcome>) -> bool {
    &&& b.wf()
    &&& forall|j: int|
        0 <= j < b.files@.len() ==> loaded_locale(outs, (#[trigger] b.files@[j]).0@)
            && crate::xliff::doc_from_raw(b.files@[j].1, last_raw(outs, b.files@[j].0@))
    &&& forall|k: int|
        0 <= k < outs.len() ==> match #[trigger] outs[k] {
            EntryOutcome::Loaded { locale, document } => has_locale(b.files@, locale@),
            _ => true,
        }
}

impl StringFiles {
    /// Locale keys are unique.
    pub open spec fn wf(self) -> bool {
        forall|j: int, k: int|
            0 <= j < k < self.files@.len() ==> (#[trigger] self.files@[j]).0@ != (
            #[trigger] self.files@[k]).0@
    }

    /// The document loaded for `locale`, if that locale is in the bundle.
    pub fn get(&self, locale: &str) -> (r: Option<&Xliff>)
        ensures
            match r {
                Some(doc) => exists|j: int|
                    0 <= j < self.files@.len() && (#[trigger] self.files@[j]).0@ == locale@
                        && self.files@[j].1 == *doc,
                None => !has_locale(self.files@, locale@),
            },
    {
        let mut idx: usize = 0;
        while idx < self.files.len()
            invariant
                idx <= self.files@.len(),
                forall|j: int| 0 <= j < idx ==> (#[trigger] self.files@[j]).0@ != locale@,
            decreases self.files@.len() - idx,
        {
            if str_eq(self.files[idx].0.as_str(), locale) {
                return Some(&self.files[idx].1);
            }
            idx += 1;
        }
        None
    }

    /// The number of locales in the bundle.
    pub fn len(&self) -> (n: usize)
        ensures
            n == self.files@.len(),
    {
        self.files.len()
    }

    /// Put `doc` into the bundle under the key `locale`, replacing the
    /// document a key of the same name already holds.
    fn insert_doc(&mut self, locale: String, doc: Xliff)
        requires
            old(self).wf(),
        ensures
            final(self).wf(),
            has_locale(final(self).files@, locale@),
            forall|loc: Seq<char>|
                loc != locale@ ==> (#[trigger] has_locale(final(self).files@, loc) == has_locale(
                    old(self).files@,
                    loc,
                )),
            forall|j: int|
                0 <= j < final(self).files@.len() ==> {
                    let p = (#[trigger] final(self).files@[j]);
                    (p.0@ == locale@ && p.1 == doc) || (p.0@ != locale@ && exists|jj: int|
                        0 <= jj < old(self).files@.len() && #[trigger] old(self).files@[jj] == p)
                },
    {
        let ghost pre = self.files@;
        let mut idx: usize = 0;
        while idx < self.files.len()
            invariant
                idx <= self.files@.len(),
                self.files@ == pre,
                pre == old(self).files@,
                old(self).wf(),
                forall|j: int| 0 <= j < idx ==> (#[trigger] pre[j]).0@ != locale@,
            decreases self.files@.len() - idx,
        {
            if str_eq(self.files[idx].0.as_str(), locale.as_str()) {
                proof {
                    assert(pre[idx as int].0@ == locale@);
                    pre.remove_ensures(idx as int);
                }
                self.files.remove(idx);
                self.files.push((locale, doc));
                proof {
                    let ghost mid = pre.remove(idx as int);
                    let post = self.files@;
                    assert(post == mid.push((locale, doc)));
                    assert(post.last() == (locale, doc));
                    assert forall|j: int| 0 <= j < post.len() - 1 implies (#[trigger] post[j]).0@
                        != locale@ by {
                        assert(post[j] == mid[j]);
                        if j < idx {
                            assert(mid[j] == pre[j]);
                        } else {
                            assert(mid[j] == pre[j + 1]);
                            assert(old(self).files@[idx as int] == pre[idx as int]);
                            assert(old(self).files@[j + 1] == pre[j + 1]);
                            assert(pre[j + 1].0@ != pre[idx as int].0@);
                        }
                    }
                    assert(has_locale(post, locale@));
                    assert forall|loc: Seq<char>| loc != locale@ implies (#[trigger] has_locale(
                        post,
                        loc,
                    ) == has_locale(pre, loc)) by {
                        if has_locale(post, loc) {
                            let j = choose|j: int|
                                0 <= j < post.len() && (#[trigger] post[j]).0@ == loc;
                            if j < idx {
                                assert(post[j] == pre[j]);
                            } else {
                                assert(post[j] == pre[j + 1]);
                            }
                        }
                        if has_locale(pre, loc) {
                            let j = choose|j: int|
                                0 <= j < pre.len() && (#[trigger] pre[j]).0@ == loc;
                            if j < idx {
                                assert(post[j] == pre[j]);
                            } else if j == idx {
                                assert(false);
                            } else {
                                assert(post[j - 1] == pre[j]);
                            }
                        }
                    }
                    assert forall|j: int| 0 <= j < post.len() implies {
                        let p = (#[trigger] post[j]);
                        (p.0@ == locale@ && p.1 == doc) || (p.0@ != locale@ && exists|jj: int|
                            0 <= jj < pre.len() && #[trigger] pre[jj] == p)
                    } by {
                        if j < post.len() - 1 {
                            if j < idx {
                                assert(pre[j] == post[j]);
                            } else {
                                assert(pre[j + 1] == post[j]);
                            }
                        }
                    }
                }
                return ;
            }
            idx += 1;
        }
        self.files.push((locale, doc));
        proof {
            let post = self.files@;
            assert(post.last() == (locale, doc));
            assert(has_locale(post, locale@));
            assert forall|loc: Seq<char>| loc != locale@ implies (#[trigger] has_locale(post, loc)
                == has_locale(pre, loc)) by {
                if has_locale(post, loc) {
                    let j = choose|j: int| 0 <= j < post.len() && (#[trigger] post[j]).0@ == loc;
                    assert(post[j] == pre[j]);
                }
                if has_locale(pre, loc) {
                    let j = choose|j: int| 0 <= j < pre.len() && (#[trigger] pre[j]).0@ == loc;
                    assert(post[j] == pre[j]);
                }
            }
        }
    }

    /// Assemble a bundle from what a scan of the source root observed.
    ///
    /// `entries` is `Err` when the root itself could not be enumerated.
    /// Otherwise the observations are taken in order: the first one that is
    /// not a loaded document aborts the load with the matching error, and no
    /// bundle — not even a partial one — is returned.  When every entry
    /// loaded, the bundle holds exactly the observed locales, each mapped to
    /// the parse of the last document observed for it.
    pub fn from_scan(entries: Result<Vec<EntryOutcome>, String>) -> (r: Result<
        StringFiles,
        XliffError,
    >)
        ensures
            match entries {
                Result::Err(m) => match r {
                    Result::Err(e) => e matches XliffError::CouldNotReadRoot { message }
                        && message@ == m@,
                    Result::Ok(_) => false,
                },
                Result::Ok(outs) => if all_loaded(outs@) {
                    match r {
                        Result::Ok(b) => bundle_from_outcomes(b, outs@),
                        Result::Err(_) => false,
                    }
                } else {
                    match r {
                        Result::Err(e) => exists|k: int|
                            0 <= k < outs@.len() && !(#[trigger] outs@[k] is Loaded)
                                && error_matches(e, outs@[k]) && (forall|j: int|
                                0 <= j < k ==> #[trigger] outs@[j] is Loaded),
                        Result::Ok(_) => false,
                    }
                },
            },
    {
        let outcomes = match &entries {
            Result::Err(message) => {
                return Result::Err(XliffError::CouldNotReadRoot { message: message.clone() });
            },
            Result::Ok(outcomes) => outcomes,
        };
        let mut bundle = StringFiles { files: Vec::new() };
        let mut i: usize = 0;
        while i < outcomes.len()
            invariant
                entries == Result::<Vec<EntryOutcome>, String>::Ok(*outcomes),
                i <= outcomes@.len(),
                forall|k: int| 0 <= k < i ==> #[trigger] outcomes@[k] is Loaded,
                bundle.wf(),
                forall|j: int|
                    0 <= j < bundle.files@.len() ==> loaded_locale(
                        outcomes@.take(i as int),
                        (#[trigger] bundle.files@[j]).0@,
                    ) && crate::xliff::doc_from_raw(
                        bundle.files@[j].1,
                        last_raw(outcomes@.take(i as int), bundle.files@[j].0@),
                    ),
                forall|k: int|
                    0 <= k < i ==> match #[trigger] outcomes@[k] {
                        EntryOutcome::Loaded { locale, document } => has_locale(
                            bundle.files@,
                            locale@,
                        ),
                        _ => true,
                    },
            decreases outcomes@.len() - i,
        {
            let ghost prefix = outcomes@.take(i as int);
            let ghost pre_bundle = bundle;
            match &outcomes[i] {
                EntryOutcome::Loaded { locale, document } => {
                    let doc = Xliff::from_raw(document);
                    bundle.insert_doc(locale.clone(), doc);
                    proof {
                        let o = outcomes@[i as int];
                        let next = outcomes@.take(i as int + 1);
                        assert(next =~= prefix.push(o));
                        lemma_loaded_locale_push(prefix, o);
                        lemma_last_raw_push(prefix, o);
                        assert forall|j: int| 0 <= j < bundle.files@.len() implies loaded_locale(
                            next,
                            (#[trigger] bundle.files@[j]).0@,
                        ) && crate::xliff::doc_from_raw(
                            bundle.files@[j].1,
                            last_raw(next, bundle.files@[j].0@),
                        ) by {
                            let p = bundle.files@[j];
                            if p.0@ == locale@ {
                                assert(is_loaded_with(o, locale@));
                                assert(last_raw(next, locale@) == *document);
                            } else {
                                let jj = choose|jj: int|
                                    0 <= jj < pre_bundle.files@.len()
                                        && #[trigger] pre_bundle.files@[jj] == p;
                                assert(!is_loaded_with(o, p.0@));
                                assert(last_raw(next, p.0@) == last_raw(prefix, p.0@));
                            }
                        }
                        assert forall|k: int| 0 <= k < i + 1 implies match #[trigger] outcomes@[k] {
                            EntryOutcome::Loaded { locale: l, document: d } => has_locale(
                                bundle.files@,
                                l@,
                            ),
                            _ => true,
                        } by {
                            if k < i {
                                match outcomes@[k] {
                                    EntryOutcome::Loaded { locale: l, document: d } => {
                                        if l@ == locale@ {
                                            assert(has_locale(bundle.files@, locale@));
                                        } else {
                                            assert(has_locale(pre_bundle.files@, l@));
                                        }
                                    },
                                    _ => {},
                                }
                            } else {
                                assert(has_locale(bundle.files@, locale@));
                            }
                        }
                    }
                },
                EntryOutcome::NotADirectory { path } => {
                    let e = XliffError::NotADirectory { path: path.clone() };
                    proof {
                        lemma_first_bad_witness(outcomes@, i as int, e);
                    }
                    return Result::Err(e);
                },
                EntryOutcome::InvalidName { name } => {
                    let e = XliffError::InvalidLocaleName { name: name.clone() };
                    proof {
                        lemma_first_bad_witness(outcomes@, i as int, e);
                    }
                    return Result::Err(e);
                },
                EntryOutcome::OpenFailed { locale, message } => {
                    let e = XliffError::CouldNotOpenFile {
                        locale: locale.clone(),
                        message: message.clone(),
                    };
                    proof {
                        lemma_first_bad_witness(outcomes@, i as int, e);
                    }
                    return Result::Err(e);
                },
                EntryOutcome::ParseFailed { locale, message } => {
                    let e = XliffError::Deserialize {
                        locale: locale.clone(),
                        message: message.clone(),
                    };
                    proof {
                        lemma_first_bad_witness(outcomes@, i as int, e);
                    }
                    return Result::Err(e);
                },
            }
            i += 1;
        }
        proof {
            assert(outcomes@.take(outcomes@.len() as int) =~= outcomes@);
        }
        Result::Ok(bundle)
    }
}

impl Default for StringFiles {
    /// An empty bundle.
    fn default() -> (r: StringFiles)
        ensures
            r.files@.len() == 0,
    {
        StringFiles { files: Vec::new() }
    }
}

/// The failing observation at index `k`, with everything before it loaded,
/// is the witness that the scan aborts with the error `e` that reports it.
proof fn lemma_first_bad_witness(outs: Seq<EntryOutcome>, k: int, e: XliffError)
    requires
        0 <= k < outs.len(),
        !(outs[k] is Loaded),
        error_matches(e, outs[k]),
        forall|j: int| 0 <= j < k ==> #[trigger] outs[j] is Loaded,
    ensures
        exists|kk: int|
            0 <= kk < outs.len() && !(#[trigger] outs[kk] is Loaded) && error_matches(e, outs[kk])
                && (forall|j: int| 0 <= j < kk ==> #[trigger] outs[j] is Loaded),
        !all_loaded(outs),
{
    assert(0 <= k < outs.len() && !(#[trigger] outs[k] is Loaded) && error_matches(e, outs[k]) && (
    forall|j: int| 0 <= j < k ==> #[trigger] outs[j] is Loaded));
}

/// Pushing one more observation keeps every locale that was loaded and adds
/// the pushed one, if it is a loaded document.
proof fn lemma_loaded_locale_push(s: Seq<EntryOutcome>, o: EntryOutcome)
    ensures
        forall|loc: Seq<char>| #[trigger]
            loaded_locale(s.push(o), loc) <==> (loaded_locale(s, loc) || is_loaded_with(o, loc)),
{
    assert forall|loc: Seq<char>| #[trigger]
        loaded_locale(s.push(o), loc) implies (loaded_locale(s, loc) || is_loaded_with(
        o,
        loc,
    )) by {
        let k = choose|k: int|
            0 <= k < s.push(o).len() && is_loaded_with(#[trigger] s.push(o)[k], loc);
        if k < s.len() {
            assert(is_loaded_with(s[k], loc));
        } else {
            assert(s.push(o)[k] == o);
        }
    }
    assert forall|loc: Seq<char>| (loaded_locale(s, loc) || is_loaded_with(
        o,
        loc,
    )) implies #[trigger] loaded_locale(s.push(o), loc) by {
        if loaded_locale(s, loc) {
            let k = choose|k: int| 0 <= k < s.len() && is_loaded_with(#[trigger] s[k], loc);
            assert(is_loaded_with(s.push(o)[k], loc));
        } else {
            assert(is_loaded_with(s.push(o)[s.len() as int], loc));
        }
    }
}

/// Pushing one more observation changes the last raw document only for the
/// locale that observation loaded.
proof fn lemma_last_raw_push(s: Seq<EntryOutcome>, o: EntryOutcome)
    ensures
        forall|loc: Seq<char>|
            !is_loaded_with(o, loc) ==> #[trigger] last_raw(s.push(o), loc) == last_raw(s, loc),
        match o {
            EntryOutcome::Loaded { locale, document } => last_raw(s.push(o), locale@) == document,
            _ => true,
        },
{
    assert(s.push(o).drop_last() =~= s);
    assert(s.push(o).last() == o);
}

/// Character-for-character string comparison: true exactly when the two
/// views are the same sequence of characters.
fn str_eq(a: &str, b: &str) -> (r: bool)
    ensures
        r == (a@ == b@),
{
    let na = a.unicode_len();
    let nb = b.unicode_len();
    if na != nb {
        return false;
    }
    let mut i: usize = 0;
    while i < na
        invariant
            i <= na,
            na == a@.len(),
            na == b@.len(),
            forall|j: int| 0 <= j < i ==> a@[j] == b@[j],
        decreases na - i,
    {
        if a.get_char(i) != b.get_char(i) {
            return false;
        }
        i += 1;
    }
    proof {
        assert(a@ =~= b@);
    }
    true
}

} // verus!
