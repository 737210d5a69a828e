//! Matching candidates against the target digests.

use vstd::prelude::*;
use vstd::string::StringExecFns;
use vstd::utf8::encode_utf8;
use crate::config::clamp_max_length;
use crate::config::clamped_length;
use crate::config::lemma_clamp_saturates;
use crate::config::MAX_USERNAME_LENGTH;
use crate::digest::email_digest_hex;
use crate::digest::hex_encoding;
use crate::digest::hex_lower;
use crate::digest::sha256;
use crate::digest::sha256_digest;
use crate::generator::StringsGenerator;
use crate::order::candidate_count;
use crate::order::is_candidate;
use crate::order::lemma_nth_candidate_is_candidate;
use crate::order::lemma_position_of_candidate;
use crate::order::position_of;
use crate::order::nth_candidate;

verus! {

/// An email address found among the targets, with the digest that gave it
/// away.
#[derive(Debug, PartialEq, Eq)]
pub struct Match {
    pub email: String,
    pub digest: String,
}

impl View for Match {
    type V = (Seq<char>, Seq<char>);

    open spec fn view(&self) -> (Seq<char>, Seq<char>) {
        (self.email@, self.digest@)
    }
}

/// The contents of a list of strings.
pub open spec fn texts(strings: Seq<String>) -> Seq<Seq<char>> {
    Seq::new(strings.len(), |i: int| strings[i]@)
}

/// The contents of a list of matches: address and digest of each.
pub open spec fn match_views(found: Seq<Match>) -> Seq<(Seq<char>, Seq<char>)> {
    Seq::new(found.len(), |i: int| found[i]@)
}

/// The address of `username` at `domain`.
pub open spec fn email_address(username: Seq<char>, domain: Seq<char>) -> Seq<char> {
    username + seq!['@'] + domain
}

/// Builds the address `username@domain`.
pub fn candidate_email(username: &str, domain: &str) -> (email: String)
    ensures
        email@ == email_address(username@, domain@),
{
    let mut email = String::from_str(username);
    email.append("@");
    email.append(domain);
    proof {
        reveal_strlit("@");
        assert("@"@ =~= seq!['@']);
    }
    email
}

/// Whether `digest` is one of the targets, compared character by character:
/// the case of hexadecimal digits matters.
pub fn is_target(digest: &String, hashed_emails: &Vec<String>) -> (found: bool)
    ensures
        found == texts(hashed_emails@).contains(digest@),
{
    let mut i: usize = 0;
    while i < hashed_emails.len()
        invariant
            i <= hashed_emails@.len(),
            forall|j: int| 0 <= j < i ==> (#[trigger] texts(hashed_emails@)[j]) != digest@,
        decreases hashed_emails@.len() - i,
    {
        if hashed_emails[i] == *digest {
            assert(texts(hashed_emails@)[i as int] == digest@);
            return true;
        }
        i += 1;
    }
    false
}

/// What a digest of `email` yields: the address and the digest's hexadecimal
/// form if that form is among the targets, nothing otherwise.
pub open spec fn digest_match(email: Seq<char>, digest: Seq<u8>, targets: Seq<Seq<char>>) -> Option<
    (Seq<char>, Seq<char>),
> {
    if targets.contains(hex_encoding(digest)) {
        Some((email, hex_encoding(digest)))
    } else {
        None
    }
}

/// The matches of one username: for each domain in turn, the address at that
/// domain if its digest is among the targets.
pub open spec fn candidate_matches_of(
    username: Seq<char>,
    domains: Seq<Seq<char>>,
    targets: Seq<Seq<char>>,
) -> Seq<(Seq<char>, Seq<char>)>
    decreases domains.len(),
{
    if domains.len() == 0 {
        Seq::empty()
    } else {
        let earlier = candidate_matches_of(username, domains.drop_last(), targets);
        let email = email_address(username, domains.last());
        match digest_match(email, sha256_digest(encode_utf8(email)), targets) {
            Some(found) => earlier.push(found),
            None => earlier,
        }
    }
}

/// Tests a computed digest of `email` against the targets.
pub fn check_digest(email: String, digest: &[u8], hashed_emails: &Vec<String>) -> (found: Option<
    Match,
>)
    ensures
        found.is_some() <==> digest_match(email@, digest@, texts(hashed_emails@)).is_some(),
        found.is_some() ==> Some(found.unwrap()@) == digest_match(
            email@,
            digest@,
            texts(hashed_emails@),
        ),
{
    let hex = hex_lower(digest);
    if is_target(&hex, hashed_emails) {
        Some(Match { email, digest: hex })
    } else {
        None
    }
}

/// Digests `email` and tests the digest against the targets.
pub fn check_email(email: String, hashed_emails: &Vec<String>) -> (found: Option<Match>)
    ensures
        found.is_some() <==> texts(hashed_emails@).contains(email_digest_hex(email@)),
        found.is_some() ==> found.unwrap()@ == (email@, email_digest_hex(email@)),
{
    let digest = sha256(email.as_str().as_bytes());
    check_digest(email, digest.as_slice(), hashed_emails)
}

/// All matches of one username, in the order of the domains.
pub fn candidate_matches(username: &str, domains: &Vec<String>, hashed_emails: &Vec<String>) -> (found:
    Vec<Match>)
    ensures
        match_views(found@) == candidate_matches_of(
            username@,
            texts(domains@),
            texts(hashed_emails@),
        ),
{
    let mut found: Vec<Match> = Vec::new();
    let mut i: usize = 0;
    assert(texts(domains@).take(0) =~= Seq::<Seq<char>>::empty());
    while i < domains.len()
        invariant
            i <= domains@.len(),
            match_views(found@) == candidate_matches_of(
                username@,
                texts(domains@).take(i as int),
                texts(hashed_emails@),
            ),
        decreases domains@.len() - i,
    {
        let ghost before = match_views(found@);
        let email = candidate_email(username, domains[i].as_str());
        proof {
            let tried = texts(domains@).take(i + 1);
            assert(tried.drop_last() =~= texts(domains@).take(i as int));
            assert(tried.last() == domains@[i as int]@);
        }
        match check_email(email, hashed_emails) {
            Some(hit) => {
                found.push(hit);
                assert(match_views(found@) =~= before.push(hit@));
            },
            None => {},
        }
        i += 1;
    }
    assert(texts(domains@).take(i as int) =~= texts(domains@));
    found
}

/// The matches of the first `positions` candidates over `alphabet`, in the
/// order the candidates are enumerated.
pub open spec fn search_matches(
    alphabet: Seq<char>,
    positions: nat,
    domains: Seq<Seq<char>>,
    targets: Seq<Seq<char>>,
) -> Seq<(Seq<char>, Seq<char>)>
    decreases positions,
{
    if positions == 0 {
        Seq::empty()
    } else {
        search_matches(alphabet, (positions - 1) as nat, domains, targets) + candidate_matches_of(
            nth_candidate(alphabet, positions),
            domains,
            targets,
        )
    }
}

/// What a search with the given options reports: the matches of every
/// candidate of up to `max_length` characters, capped at the longest valid
/// username.
pub open spec fn search_result(
    max_length: u8,
    alphabet: Seq<char>,
    domains: Seq<Seq<char>>,
    targets: Seq<Seq<char>>,
) -> Seq<(Seq<char>, Seq<char>)> {
    search_matches(
        alphabet,
        candidate_count(alphabet.len(), clamped_length(max_length)),
        domains,
        targets,
    )
}

/// Searches every username of up to `max_length` characters of `dictionary`,
/// capped at the longest valid username, at every domain, and returns the
/// addresses whose digest is among `hashed_emails`, in the order in which the
/// usernames are enumerated and, for one username, in the order of the
/// domains.
pub fn search(
    max_length: u8,
    dictionary: &str,
    domains: &Vec<String>,
    hashed_emails: &Vec<String>,
) -> (found: Vec<Match>)
    ensures
        match_views(found@) == search_result(
            max_length,
            dictionary@,
            texts(domains@),
            texts(hashed_emails@),
        ),
{
    let mut generator = StringsGenerator::new(clamp_max_length(max_length), dictionary);
    let mut found: Vec<Match> = Vec::new();
    loop
        invariant
            generator.wf(),
            generator.alphabet() == dictionary@,
            generator.max_length() == clamped_length(max_length),
            match_views(found@) == search_matches(
                dictionary@,
                generator.produced(),
                texts(domains@),
                texts(hashed_emails@),
            ),
        ensures
            generator.produced() == candidate_count(
                dictionary@.len(),
                clamped_length(max_length),
            ),
        decreases generator.total() - generator.produced(),
    {
        let ghost before = match_views(found@);
        match generator.advance() {
            Some(username) => {
                let mut hits = candidate_matches(username.as_str(), domains, hashed_emails);
                let ghost added = match_views(hits@);
                found.append(&mut hits);
                assert(match_views(found@) =~= before + added);
            },
            None => {
                break ;
            },
        }
    }
    found
}

/// The output line of a match: the address, the separator, the digest.
pub fn format_match(found: &Match, separator: &str) -> (line: String)
    ensures
        line@ == found.email@ + separator@ + found.digest@,
{
    let mut line = found.email.clone();
    line.append(separator);
    line.append(found.digest.as_str());
    line
}

/// Whether `found` is the match of `username` at `domain`: the address, with
/// its digest, and the digest is a target.
pub open spec fn is_match_of(
    found: (Seq<char>, Seq<char>),
    username: Seq<char>,
    domain: Seq<char>,
    targets: Seq<Seq<char>>,
) -> bool {
    &&& found.0 == email_address(username, domain)
    &&& found.1 == email_digest_hex(found.0)
    &&& targets.contains(found.1)
}

/// Each match of a username is its match at one of the domains.
pub proof fn lemma_candidate_matches_sound(
    username: Seq<char>,
    domains: Seq<Seq<char>>,
    targets: Seq<Seq<char>>,
    i: int,
)
    requires
        0 <= i < candidate_matches_of(username, domains, targets).len(),
    ensures
        exists|j: int|
            0 <= j < domains.len() && is_match_of(
                candidate_matches_of(username, domains, targets)[i],
                username,
                #[trigger] domains[j],
                targets,
            ),
    decreases domains.len(),
{
    let all = candidate_matches_of(username, domains, targets);
    let earlier = candidate_matches_of(username, domains.drop_last(), targets);
    if i < earlier.len() {
        lemma_candidate_matches_sound(username, domains.drop_last(), targets, i);
        let j = choose|j: int|
            0 <= j < domains.drop_last().len() && is_match_of(
                earlier[i],
                username,
                #[trigger] domains.drop_last()[j],
                targets,
            );
        assert(is_match_of(all[i], username, domains[j], targets));
    } else {
        assert(is_match_of(all[i], username, domains[domains.len() - 1], targets));
    }
}

/// A username's match at any of the domains is among its matches.
pub proof fn lemma_candidate_matches_complete(
    username: Seq<char>,
    domains: Seq<Seq<char>>,
    targets: Seq<Seq<char>>,
    j: int,
)
    requires
        0 <= j < domains.len(),
        targets.contains(email_digest_hex(email_address(username, domains[j]))),
    ensures
        candidate_matches_of(username, domains, targets).contains(
            (
                email_address(username, domains[j]),
                email_digest_hex(email_address(username, domains[j])),
            ),
        ),
    decreases domains.len(),
{
    let all = candidate_matches_of(username, domains, targets);
    let earlier = candidate_matches_of(username, domains.drop_last(), targets);
    let email = email_address(username, domains[j]);
    let wanted = (email, email_digest_hex(email));
    if j < domains.len() - 1 {
        lemma_candidate_matches_complete(username, domains.drop_last(), targets, j);
        let i = choose|i: int| 0 <= i < earlier.len() && earlier[i] == wanted;
        assert(all[i] == wanted);
    } else {
        assert(all == earlier.push(wanted));
        assert(all[earlier.len() as int] == wanted);
    }
}

/// Nothing is reported but matches: each entry of a search's result is the
/// match of an enumerated candidate at one of the domains.
pub proof fn lemma_search_matches_sound(
    alphabet: Seq<char>,
    positions: nat,
    domains: Seq<Seq<char>>,
    targets: Seq<Seq<char>>,
    i: int,
)
    requires
        0 <= i < search_matches(alphabet, positions, domains, targets).len(),
    ensures
        exists|p: nat, j: int|
            1 <= p <= positions && 0 <= j < domains.len() && is_match_of(
                search_matches(alphabet, positions, domains, targets)[i],
                #[trigger] nth_candidate(alphabet, p),
                #[trigger] domains[j],
                targets,
            ),
    decreases positions,
{
    let all = search_matches(alphabet, positions, domains, targets);
    let earlier = search_matches(alphabet, (positions - 1) as nat, domains, targets);
    let username = nth_candidate(alphabet, positions);
    if i < earlier.len() {
        lemma_search_matches_sound(alphabet, (positions - 1) as nat, domains, targets, i);
        let (p, j) = choose|p: nat, j: int|
            1 <= p <= positions - 1 && 0 <= j < domains.len() && is_match_of(
                earlier[i],
                #[trigger] nth_candidate(alphabet, p),
                #[trigger] domains[j],
                targets,
            );
        assert(is_match_of(all[i], nth_candidate(alphabet, p), domains[j], targets));
    } else {
        let last = candidate_matches_of(username, domains, targets);
        lemma_candidate_matches_sound(username, domains, targets, i - earlier.len());
        let j = choose|j: int|
            0 <= j < domains.len() && is_match_of(
                last[i - earlier.len()],
                username,
                #[trigger] domains[j],
                targets,
            );
        assert(is_match_of(all[i], nth_candidate(alphabet, positions), domains[j], targets));
    }
}

/// Nothing is missed: the match of any enumerated candidate at any of the
/// domains is in the search's result.
pub proof fn lemma_search_matches_complete(
    alphabet: Seq<char>,
    positions: nat,
    domains: Seq<Seq<char>>,
    targets: Seq<Seq<char>>,
    p: nat,
    j: int,
)
    requires
        1 <= p <= positions,
        0 <= j < domains.len(),
        targets.contains(
            email_digest_hex(email_address(nth_candidate(alphabet, p), domains[j])),
        ),
    ensures
        search_matches(alphabet, positions, domains, targets).contains(
            (
                email_address(nth_candidate(alphabet, p), domains[j]),
                email_digest_hex(email_address(nth_candidate(alphabet, p), domains[j])),
            ),
        ),
    decreases positions,
{
    let all = search_matches(alphabet, positions, domains, targets);
    let earlier = search_matches(alphabet, (positions - 1) as nat, domains, targets);
    let email = email_address(nth_candidate(alphabet, p), domains[j]);
    let wanted = (email, email_digest_hex(email));
    if p < positions {
        lemma_search_matches_complete(alphabet, (positions - 1) as nat, domains, targets, p, j);
        let i = choose|i: int| 0 <= i < earlier.len() && earlier[i] == wanted;
        assert(all[i] == wanted);
    } else {
        let last = candidate_matches_of(nth_candidate(alphabet, p), domains, targets);
        lemma_candidate_matches_complete(nth_candidate(alphabet, p), domains, targets, j);
        let i = choose|i: int| 0 <= i < last.len() && last[i] == wanted;
        assert(all[earlier.len() + i] == wanted);
    }
}

/// A search is exact: it reports a pair if and only if the pair is the match
/// of some username of 1 to the capped `max_length` alphabet characters at one
/// of the domains.
pub proof fn lemma_search_result_exact(
    max_length: u8,
    alphabet: Seq<char>,
    domains: Seq<Seq<char>>,
    targets: Seq<Seq<char>>,
    found: (Seq<char>, Seq<char>),
)
    ensures
        search_result(max_length, alphabet, domains, targets).contains(found) <==> exists|
            username: Seq<char>,
            j: int,
        |
            #![trigger is_candidate(alphabet, clamped_length(max_length), username), domains[j]]
            is_candidate(alphabet, clamped_length(max_length), username) && 0 <= j < domains.len()
                && is_match_of(found, username, domains[j], targets),
{
    let length = clamped_length(max_length);
    let total = candidate_count(alphabet.len(), length);
    let all = search_result(max_length, alphabet, domains, targets);
    if all.contains(found) {
        let i = choose|i: int| 0 <= i < all.len() && all[i] == found;
        lemma_search_matches_sound(alphabet, total, domains, targets, i);
        let (p, j) = choose|p: nat, j: int|
            1 <= p <= total && 0 <= j < domains.len() && is_match_of(
                all[i],
                #[trigger] nth_candidate(alphabet, p),
                #[trigger] domains[j],
                targets,
            );
        lemma_nth_candidate_is_candidate(alphabet, length, p);
        assert(is_candidate(alphabet, length, nth_candidate(alphabet, p)) && is_match_of(
            found,
            nth_candidate(alphabet, p),
            domains[j],
            targets,
        ));
    }
    if exists|username: Seq<char>, j: int|
        #![trigger is_candidate(alphabet, length, username), domains[j]]
        is_candidate(alphabet, length, username) && 0 <= j < domains.len() && is_match_of(
            found,
            username,
            domains[j],
            targets,
        ) {
        let (username, j) = choose|username: Seq<char>, j: int|
            #![trigger is_candidate(alphabet, length, username), domains[j]]
            is_candidate(alphabet, length, username) && 0 <= j < domains.len() && is_match_of(
                found,
                username,
                domains[j],
                targets,
            );
        lemma_position_of_candidate(alphabet, length, username);
        lemma_search_matches_complete(
            alphabet,
            total,
            domains,
            targets,
            position_of(alphabet, username),
            j,
        );
    }
}

/// Asking for more than the longest valid username changes nothing: all
/// requests at or beyond the limit report the same matches.
pub proof fn lemma_search_result_clamped(
    requested: u8,
    other: u8,
    alphabet: Seq<char>,
    domains: Seq<Seq<char>>,
    targets: Seq<Seq<char>>,
)
    requires
        requested >= MAX_USERNAME_LENGTH,
        other >= MAX_USERNAME_LENGTH,
    ensures
        search_result(requested, alphabet, domains, targets) == search_result(
            other,
            alphabet,
            domains,
            targets,
        ),
{
    lemma_clamp_saturates(requested, other);
}

} // verus!
