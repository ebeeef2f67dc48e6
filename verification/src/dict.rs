//! The dictionary oracle: an outside spelling engine, reached through a
//! small trusted surface.  The oracle answers two questions: is a word
//! valid, and what replacements are suggested for an invalid one.

use vstd::prelude::*;

verus! {

#[verifier::external_type_specification]
#[verifier::external_body]
pub struct ExDictionary(zspell::Dictionary);

/// The set of single words the dictionary accepts: the words for which
/// `zspell::Dictionary::check_word` returns true.
pub uninterp spec fn dict_words(d: zspell::Dictionary) -> Set<Seq<char>>;

/// Whether the dictionary's entry lookup reports the word as misspelled:
/// exactly when `zspell::WordEntry::suggest` would return a suggestion list.
pub uninterp spec fn entry_misspelled(d: zspell::Dictionary, w: Seq<char>) -> bool;

/// Relies on `zspell::Dictionary::check_word`: accepts a single word when
/// one of the dictionary's word lists holds it (as given or lowercased) and
/// the forbidden list does not.  A pure function of the dictionary and the
/// word, named here as membership in `dict_words`.
#[verifier::external_body]
pub(crate) fn dict_check_word(dict: &zspell::Dictionary, word: &str) -> (r: bool)
    ensures
        r == dict_words(*dict).contains(word@),
{
    dict.check_word(word)
}

/// Relies on `zspell::Dictionary::entry` and `zspell::WordEntry::suggest`:
/// `suggest` returns `None` exactly when the entry is correct, and a correct
/// entry is also accepted by `check_word`.  The suggestion list itself is
/// left unspecified: its order follows the walk of the dictionary's internal
/// hash map, which varies between processes.
#[verifier::external_body]
pub(crate) fn dict_suggest(dict: &zspell::Dictionary, word: &str) -> (r: Option<Vec<String>>)
    ensures
        (r is Some) == entry_misspelled(*dict, word@),
        r is None ==> dict_words(*dict).contains(word@),
{
    dict.entry(word).suggest().map(|v| v.iter().map(|s| s.to_string()).collect())
}

} // verus!
