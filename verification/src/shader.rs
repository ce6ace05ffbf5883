use vstd::prelude::*;
use crate::named::NameMap;

verus! {

broadcast use vstd::string::group_string_axioms;

/// The text that opens an include directive; the included name runs from its end up to
/// the next `>`.
pub open spec fn include_open() -> Seq<char> {
    "// #include <"@
}

/// `p` occurs in `s` starting at index `i`.
pub open spec fn occurs_at(s: Seq<char>, p: Seq<char>, i: int) -> bool {
    &&& 0 <= i
    &&& i + p.len() <= s.len()
    &&& s.subrange(i, i + p.len()) == p
}

/// The first index at or after `from` where `p` occurs in `s`.
pub open spec fn find_seq(s: Seq<char>, p: Seq<char>, from: int) -> Option<int>
    decreases s.len() - from,
{
    if from < 0 || from >= s.len() || from + p.len() > s.len() {
        None
    } else if occurs_at(s, p, from) {
        Some(from)
    } else {
        find_seq(s, p, from + 1)
    }
}

/// The first index at or after `from` that holds the character `c`.
pub open spec fn find_char(s: Seq<char>, c: char, from: int) -> Option<int>
    decreases s.len() - from,
{
    if from < 0 || from >= s.len() {
        None
    } else if s[from] == c {
        Some(from)
    } else {
        find_char(s, c, from + 1)
    }
}

/// A found character lies inside the searched range.
pub proof fn lemma_find_char_bounds(s: Seq<char>, c: char, from: int)
    ensures
        find_char(s, c, from) matches Some(j) ==> from <= j < s.len() && s[j] == c,
    decreases s.len() - from,
{
    if 0 <= from < s.len() && s[from] != c {
        lemma_find_char_bounds(s, c, from + 1);
    }
}

/// A found occurrence lies inside the searched range.
pub proof fn lemma_find_seq_bounds(s: Seq<char>, p: Seq<char>, from: int)
    ensures
        find_seq(s, p, from) matches Some(i) ==> from <= i && occurs_at(s, p, i),
    decreases s.len() - from,
{
    if 0 <= from < s.len() && from + p.len() <= s.len() && !occurs_at(s, p, from) {
        lemma_find_seq_bounds(s, p, from + 1);
    }
}

/// The text that replaces one include directive `directive` naming `name`: the included
/// source between start and end markers when the library holds `name`, an error marker
/// otherwise. `body` is the expansion of the included source.
pub open spec fn include_piece(
    directive: Seq<char>,
    name: Seq<char>,
    body: Option<Seq<char>>,
) -> Seq<char> {
    match body {
        Some(b) => directive + " --start\n"@ + b + directive + " --end\n\n"@,
        None => "include <"@ + name + "> --error\n\n"@,
    }
}

/// Expansion of the include directives of `s` against the library `lib`, following included
/// sources at most `fuel` levels deep. Each directive `// #include <name>` is replaced by
/// `include_piece`; the text around directives is kept. `None` when a directive has no
/// closing `>` or the inclusion runs deeper than `fuel`.
pub open spec fn expand(s: Seq<char>, lib: Map<Seq<char>, Seq<char>>, fuel: nat) -> Option<
    Seq<char>,
>
    decreases fuel, s.len(),
{
    match find_seq(s, include_open(), 0) {
        None => Some(s),
        Some(i) => {
            let name_start = i + include_open().len();
            match find_char(s, '>', name_start) {
                None => None,
                Some(j) => {
                    proof {
                        lemma_find_seq_bounds(s, include_open(), 0);
                        lemma_find_char_bounds(s, '>', name_start);
                    }
                    let name = s.subrange(name_start, j);
                    let directive = s.subrange(i, j + 1);
                    let rest = expand(s.subrange(j + 1, s.len() as int), lib, fuel);
                    if lib.contains_key(name) {
                        if fuel == 0 {
                            None
                        } else {
                            match (expand(lib[name], lib, (fuel - 1) as nat), rest) {
                                (Some(body), Some(r)) => Some(
                                    s.subrange(0, i) + include_piece(directive, name, Some(body))
                                        + r,
                                ),
                                _ => None,
                            }
                        }
                    } else {
                        match rest {
                            Some(r) => Some(
                                s.subrange(0, i) + include_piece(directive, name, None) + r,
                            ),
                            None => None,
                        }
                    }
                },
            }
        },
    }
}

/// `s` can be expanded against `lib`: every directive is closed by a `>` and the chain of
/// inclusions is finite.
pub open spec fn expands(s: Seq<char>, lib: Map<Seq<char>, Seq<char>>) -> bool {
    exists|fuel: nat| #[trigger] expand(s, lib, fuel) is Some
}

/// The expansion of `s` against `lib` (meaningful where `expands(s, lib)`).
pub open spec fn expansion(s: Seq<char>, lib: Map<Seq<char>, Seq<char>>) -> Seq<char> {
    expand(s, lib, choose|fuel: nat| #[trigger] expand(s, lib, fuel) is Some).unwrap()
}

/// The characters of `s`, in order.
fn to_chars(s: &str) -> (v: Vec<char>)
    ensures
        v@ == s@,
{
    let mut v: Vec<char> = Vec::new();
    for c in it: s.chars()
        invariant
            it.seq() == s@,
            v@ == it.seq().take(it.index()),
    {
        v.push(c);
    }
    v
}

/// Whether `p` occurs in `s` at index `i`.
fn occurs_at_exec(s: &Vec<char>, p: &Vec<char>, i: usize) -> (r: bool)
    ensures
        r == occurs_at(s@, p@, i as int),
        r == (i + p@.len() <= s@.len() && s@.subrange(i as int, i + p@.len()) == p@),
{
    if i > s.len() || p.len() > s.len() - i {
        return false;
    }
    let mut k: usize = 0;
    while k < p.len()
        invariant
            i + p.len() <= s.len(),
            k <= p.len(),
            forall|m: int| 0 <= m < k ==> s@[i + m] == p@[m],
        decreases p.len() - k,
    {
        if s[i + k] != p[k] {
            assert(s@.subrange(i as int, i + p.len())[k as int] != p@[k as int]);
            return false;
        }
        k = k + 1;
    }
    assert(s@.subrange(i as int, i + p.len()) =~= p@);
    true
}

/// The first index at or after `from` where `p` occurs in `s`.
fn find_seq_exec(s: &Vec<char>, p: &Vec<char>, from: usize) -> (r: Option<usize>)
    ensures
        match r {
            Some(i) => find_seq(s@, p@, from as int) == Some(i as int),
            None => find_seq(s@, p@, from as int) is None,
        },
{
    let mut i = from;
    while i < s.len() && p.len() <= s.len() - i
        invariant
            from <= i,
            find_seq(s@, p@, from as int) == find_seq(s@, p@, i as int),
        decreases s.len() - i,
    {
        if occurs_at_exec(s, p, i) {
            return Some(i);
        }
        i = i + 1;
    }
    None
}

/// The first index at or after `from` that holds `c`.
fn find_char_exec(s: &Vec<char>, c: char, from: usize) -> (r: Option<usize>)
    ensures
        match r {
            Some(j) => find_char(s@, c, from as int) == Some(j as int),
            None => find_char(s@, c, from as int) is None,
        },
{
    let mut j = from;
    while j < s.len()
        invariant
            from <= j,
            find_char(s@, c, from as int) == find_char(s@, c, j as int),
        decreases s.len() - j,
    {
        if s[j] == c {
            return Some(j);
        }
        j = j + 1;
    }
    None
}

/// A named collection of shader sources.
pub struct ShaderLibrary {
    sources: NameMap<String>,
}

impl ShaderLibrary {
    /// No two sources share a name.
    pub closed spec fn wf(&self) -> bool {
        self.sources.wf()
    }
}

impl View for ShaderLibrary {
    type V = Map<Seq<char>, Seq<char>>;

    /// The source stored under each name.
    closed spec fn view(&self) -> Map<Seq<char>, Seq<char>> {
        self.sources@.map_values(|code: String| code@)
    }
}

impl ShaderLibrary {
    /// A library without sources.
    pub fn new() -> (lib: Self)
        ensures
            lib.wf(),
            lib@ == Map::<Seq<char>, Seq<char>>::empty(),
    {
        let lib = ShaderLibrary { sources: NameMap::new() };
        assert(lib@ =~= Map::<Seq<char>, Seq<char>>::empty());
        lib
    }

    /// The source stored under `name`, if any.
    pub fn get(&self, name: &String) -> (r: Option<&String>)
        requires
            self.wf(),
        ensures
            match r {
                Some(code) => self@.contains_key(name@) && code@ == self@[name@],
                None => !self@.contains_key(name@),
            },
    {
        self.sources.get(name)
    }

    /// Stores `code` under `name`, replacing the source stored there before.
    pub fn insert(&mut self, name: String, code: String)
        requires
            old(self).wf(),
        ensures
            final(self).wf(),
            final(self)@ == old(self)@.insert(name@, code@),
    {
        let ghost key = name@;
        let ghost val = code@;
        self.sources.insert(name, code);
        assert(self@ =~= old(self)@.insert(key, val));
    }
}

/// Expands the include directives of `s` with at most `fuel` levels of inclusion.
fn expand_with_fuel(s: &str, lib: &ShaderLibrary, Ghost(fuel): Ghost<nat>) -> (res: String)
    requires
        lib.wf(),
        expand(s@, lib@, fuel) is Some,
    ensures
        res@ == expand(s@, lib@, fuel).unwrap(),
    decreases fuel, s@.len(),
{
    let chars = to_chars(s);
    let open = to_chars("// #include <");
    proof {
        lemma_find_seq_bounds(s@, include_open(), 0);
    }
    match find_seq_exec(&chars, &open, 0) {
        None => String::from_str(s),
        Some(i) => {
            assert(open@ == include_open() && chars@ == s@);
            assert(occurs_at(s@, include_open(), i as int));
            assert(i + open.len() <= chars.len());
            let name_start = i + open.len();
            proof {
                lemma_find_char_bounds(s@, '>', name_start as int);
            }
            match find_char_exec(&chars, '>', name_start) {
                None => {
                    // `expand` is `None` here, which the precondition rules out.
                    String::from_str(s)
                },
                Some(j) => {
                    assert(j < chars.len());
                    let ghost sv = s@;
                    let mut result = String::from_str(s.substring_char(0, i));
                    let name = String::from_str(s.substring_char(name_start, j));
                    let directive = s.substring_char(i, j + 1);
                    let rest_src = s.substring_char(j + 1, chars.len());
                    assert(name@ == sv.subrange(name_start as int, j as int));
                    match lib.get(&name) {
                        Some(code) => {
                            let body = expand_with_fuel(
                                code.as_str(),
                                lib,
                                Ghost((fuel - 1) as nat),
                            );
                            result.append(directive);
                            result.append(" --start\n");
                            result.append(body.as_str());
                            result.append(directive);
                            result.append(" --end\n\n");
                        },
                        None => {
                            result.append("include <");
                            result.append(name.as_str());
                            result.append("> --error\n\n");
                        },
                    }
                    let rest = expand_with_fuel(rest_src, lib, Ghost(fuel));
                    result.append(rest.as_str());
                    result
                },
            }
        },
    }
}

/// Expands the include directives of `s`, following included sources at most `depth`
/// levels deep; `None` when a directive has no closing `>` or the inclusion runs deeper.
pub fn expand_limited(s: &str, lib: &ShaderLibrary, depth: usize) -> (res: Option<String>)
    requires
        lib.wf(),
    ensures
        match res {
            Some(t) => expand(s@, lib@, depth as nat) == Some(t@),
            None => expand(s@, lib@, depth as nat) is None,
        },
    decreases depth, s@.len(),
{
    let chars = to_chars(s);
    let open = to_chars("// #include <");
    proof {
        lemma_find_seq_bounds(s@, include_open(), 0);
    }
    match find_seq_exec(&chars, &open, 0) {
        None => Some(String::from_str(s)),
        Some(i) => {
            assert(open@ == include_open() && chars@ == s@);
            assert(occurs_at(s@, include_open(), i as int));
            assert(i + open.len() <= chars.len());
            let name_start = i + open.len();
            proof {
                lemma_find_char_bounds(s@, '>', name_start as int);
            }
            match find_char_exec(&chars, '>', name_start) {
                None => None,
                Some(j) => {
                    assert(j < chars.len());
                    let ghost sv = s@;
                    let mut result = String::from_str(s.substring_char(0, i));
                    let name = String::from_str(s.substring_char(name_start, j));
                    let directive = s.substring_char(i, j + 1);
                    let rest_src = s.substring_char(j + 1, chars.len());
                    assert(name@ == sv.subrange(name_start as int, j as int));
                    match lib.get(&name) {
                        Some(code) => {
                            if depth == 0 {
                                return None;
                            }
                            match expand_limited(code.as_str(), lib, depth - 1) {
                                Some(body) => {
                                    result.append(directive);
                                    result.append(" --start\n");
                                    result.append(body.as_str());
                                    result.append(directive);
                                    result.append(" --end\n\n");
                                },
                                None => {
                                    return None;
                                },
                            }
                        },
                        None => {
                            result.append("include <");
                            result.append(name.as_str());
                            result.append("> --error\n\n");
                        },
                    }
                    match expand_limited(rest_src, lib, depth) {
                        Some(rest) => {
                            result.append(rest.as_str());
                            Some(result)
                        },
                        None => None,
                    }
                },
            }
        },
    }
}

/// Replaces each `// #include <name>` directive of `s` by the expanded source that `lib`
/// holds under `name`, framed by start and end markers, or by an error marker when `lib`
/// holds no such source.
pub fn replace_include(s: &str, lib: &ShaderLibrary) -> (res: String)
    requires
        lib.wf(),
        expands(s@, lib@),
    ensures
        res@ == expansion(s@, lib@),
{
    let ghost fuel = choose|fuel: nat| #[trigger] expand(s@, lib@, fuel) is Some;
    expand_with_fuel(s, lib, Ghost(fuel))
}

/// The source that `lib` holds under `name`, with its include directives expanded; `None`
/// when `lib` holds no source of that name.
pub fn get_shader_code(lib: &ShaderLibrary, name: &str) -> (res: Option<String>)
    requires
        lib.wf(),
        lib@.contains_key(name@) ==> expands(lib@[name@], lib@),
    ensures
        match res {
            Some(code) => lib@.contains_key(name@) && code@ == expansion(lib@[name@], lib@),
            None => !lib@.contains_key(name@),
        },
{
    let key = String::from_str(name);
    match lib.get(&key) {
        Some(code) => Some(replace_include(code.as_str(), lib)),
        None => None,
    }
}

/// Following includes with more fuel than needed changes nothing.
pub proof fn lemma_expand_more_fuel(s: Seq<char>, lib: Map<Seq<char>, Seq<char>>, fuel: nat)
    requires
        expand(s, lib, fuel) is Some,
    ensures
        expand(s, lib, fuel + 1) == expand(s, lib, fuel),
    decreases fuel, s.len(),
{
    lemma_find_seq_bounds(s, include_open(), 0);
    match find_seq(s, include_open(), 0) {
        None => {},
        Some(i) => {
            let name_start = i + include_open().len();
            lemma_find_char_bounds(s, '>', name_start);
            match find_char(s, '>', name_start) {
                None => {},
                Some(j) => {
                    let name = s.subrange(name_start, j);
                    lemma_expand_more_fuel(s.subrange(j + 1, s.len() as int), lib, fuel);
                    if lib.contains_key(name) {
                        lemma_expand_more_fuel(lib[name], lib, (fuel - 1) as nat);
                    }
                },
            }
        },
    }
}

/// The expansion does not depend on the fuel it is computed with: any fuel that suffices
/// gives `expansion(s, lib)`.
pub proof fn lemma_expansion_fuel_independent(
    s: Seq<char>,
    lib: Map<Seq<char>, Seq<char>>,
    fuel: nat,
)
    requires
        expand(s, lib, fuel) is Some,
    ensures
        expands(s, lib),
        expansion(s, lib) == expand(s, lib, fuel).unwrap(),
{
    let f = choose|f: nat| #[trigger] expand(s, lib, f) is Some;
    assert(expand(s, lib, fuel) is Some);
    if f <= fuel {
        lemma_expand_fuel_range(s, lib, f, fuel);
    } else {
        lemma_expand_fuel_range(s, lib, fuel, f);
    }
}

/// Expansion with fuel `lo` and with any larger fuel `hi` agree when `lo` suffices.
proof fn lemma_expand_fuel_range(s: Seq<char>, lib: Map<Seq<char>, Seq<char>>, lo: nat, hi: nat)
    requires
        lo <= hi,
        expand(s, lib, lo) is Some,
    ensures
        expand(s, lib, hi) == expand(s, lib, lo),
    decreases hi - lo,
{
    if lo < hi {
        lemma_expand_more_fuel(s, lib, lo);
        lemma_expand_fuel_range(s, lib, (lo + 1) as nat, hi);
    }
}

/// Source without any include directive expands to itself.
pub proof fn lemma_plain_source_unchanged(s: Seq<char>, lib: Map<Seq<char>, Seq<char>>)
    requires
        find_seq(s, include_open(), 0) is None,
    ensures
        expands(s, lib),
        expansion(s, lib) == s,
{
    lemma_expansion_fuel_independent(s, lib, 0);
}

/// The expansion of a source replaces its first include directive, `// #include <name>`
/// found at `i` and closed by the `>` at `j`, by the framed expansion of the included source
/// (or by the error marker when the library has no source named `name`), keeps the text in
/// front of it, and continues with the expansion of the text after it.
pub proof fn lemma_expansion_first_directive(s: Seq<char>, lib: Map<Seq<char>, Seq<char>>, i: int, j: int)
    requires
        expands(s, lib),
        find_seq(s, include_open(), 0) == Some(i),
        find_char(s, '>', i + include_open().len()) == Some(j),
    ensures
        ({
            let name = s.subrange(i + include_open().len(), j);
            let directive = s.subrange(i, j + 1);
            let rest = s.subrange(j + 1, s.len() as int);
            &&& expands(rest, lib)
            &&& lib.contains_key(name) ==> expands(lib[name], lib)
            &&& expansion(s, lib) == s.subrange(0, i) + include_piece(
                directive,
                name,
                if lib.contains_key(name) {
                    Some(expansion(lib[name], lib))
                } else {
                    None
                },
            ) + expansion(rest, lib)
        }),
{
    let fuel = choose|f: nat| #[trigger] expand(s, lib, f) is Some;
    lemma_find_seq_bounds(s, include_open(), 0);
    lemma_find_char_bounds(s, '>', i + include_open().len());
    let name = s.subrange(i + include_open().len(), j);
    let rest = s.subrange(j + 1, s.len() as int);
    lemma_expansion_fuel_independent(rest, lib, fuel);
    if lib.contains_key(name) {
        lemma_expansion_fuel_independent(lib[name], lib, (fuel - 1) as nat);
    }
}

/// Every include directive of `s` is closed by a `>`, and every name it includes that `lib`
/// holds has a rank in `rank` below `bound`.
pub open spec fn includes_below(
    s: Seq<char>,
    lib: Map<Seq<char>, Seq<char>>,
    rank: Map<Seq<char>, nat>,
    bound: nat,
) -> bool
    decreases s.len(),
{
    match find_seq(s, include_open(), 0) {
        None => true,
        Some(i) => {
            let name_start = i + include_open().len();
            match find_char(s, '>', name_start) {
                None => false,
                Some(j) => {
                    proof {
                        lemma_find_seq_bounds(s, include_open(), 0);
                        lemma_find_char_bounds(s, '>', name_start);
                    }
                    let name = s.subrange(name_start, j);
                    &&& lib.contains_key(name) ==> rank.contains_key(name) && rank[name] < bound
                    &&& includes_below(s.subrange(j + 1, s.len() as int), lib, rank, bound)
                },
            }
        },
    }
}

/// `rank` orders the sources of `lib` so that each source includes only sources of lower
/// rank, with every directive closed: the library has no include cycle.
pub open spec fn ranked_by(lib: Map<Seq<char>, Seq<char>>, rank: Map<Seq<char>, nat>) -> bool {
    forall|name: Seq<char>| #[trigger] lib.contains_key(name) ==> rank.contains_key(name)
        && includes_below(lib[name], lib, rank, rank[name])
}

/// Source whose includes all rank below `bound` expands with fuel `bound`.
pub proof fn lemma_ranked_source_expands(
    s: Seq<char>,
    lib: Map<Seq<char>, Seq<char>>,
    rank: Map<Seq<char>, nat>,
    bound: nat,
)
    requires
        ranked_by(lib, rank),
        includes_below(s, lib, rank, bound),
    ensures
        expand(s, lib, bound) is Some,
    decreases bound, s.len(),
{
    lemma_find_seq_bounds(s, include_open(), 0);
    match find_seq(s, include_open(), 0) {
        None => {},
        Some(i) => {
            let name_start = i + include_open().len();
            lemma_find_char_bounds(s, '>', name_start);
            match find_char(s, '>', name_start) {
                None => {},
                Some(j) => {
                    let name = s.subrange(name_start, j);
                    lemma_ranked_source_expands(s.subrange(j + 1, s.len() as int), lib, rank, bound);
                    if lib.contains_key(name) {
                        let r = rank[name];
                        lemma_ranked_source_expands(lib[name], lib, rank, r);
                        lemma_expand_fuel_range(lib[name], lib, r, (bound - 1) as nat);
                    }
                },
            }
        },
    }
}

/// A library without include cycles, all of whose directives are closed, expands every
/// source it holds; `get_shader_code` then succeeds for every name it holds.
pub proof fn lemma_ranked_library_expands(lib: Map<Seq<char>, Seq<char>>, rank: Map<Seq<char>, nat>)
    requires
        ranked_by(lib, rank),
    ensures
        forall|name: Seq<char>| #[trigger] lib.contains_key(name) ==> expands(lib[name], lib),
{
    assert forall|name: Seq<char>| #[trigger] lib.contains_key(name) implies expands(
        lib[name],
        lib,
    ) by {
        lemma_ranked_source_expands(lib[name], lib, rank, rank[name]);
        assert(expand(lib[name], lib, rank[name]) is Some);
    }
}

/// A pattern is found wherever its text occurs, whatever precedes it: for a non-empty `p`
/// and `from >= 0`, `find_seq(s, p, from)` is the least index at or after `from` at which
/// `s` holds the text `p`, and `None` exactly when `s` holds `p` nowhere from `from` on.
pub proof fn lemma_find_seq_is_first_occurrence(s: Seq<char>, p: Seq<char>, from: int)
    requires
        p.len() > 0,
        from >= 0,
    ensures
        match find_seq(s, p, from) {
            Some(i) => {
                &&& from <= i
                &&& i + p.len() <= s.len()
                &&& s.subrange(i, i + p.len()) == p
                &&& forall|k: int| from <= k < i ==> #[trigger] s.subrange(k, k + p.len()) != p
            },
            None => forall|k: int|
                from <= k && k + p.len() <= s.len() ==> #[trigger] s.subrange(k, k + p.len()) != p,
        },
    decreases s.len() - from,
{
    if from >= s.len() || from + p.len() > s.len() {
    } else if s.subrange(from, from + p.len()) == p {
    } else {
        lemma_find_seq_is_first_occurrence(s, p, from + 1);
    }
}

/// The opening text of an include directive is not empty, so a directive is recognised at
/// the first place its text occurs.
pub proof fn lemma_directive_found_at_first_occurrence(s: Seq<char>)
    ensures
        match find_seq(s, include_open(), 0) {
            Some(i) => {
                &&& 0 <= i
                &&& s.subrange(i, i + include_open().len()) == "// #include <"@
                &&& forall|k: int| 0 <= k < i ==> #[trigger] s.subrange(k, k + include_open().len())
                    != "// #include <"@
            },
            None => forall|k: int|
                0 <= k && k + include_open().len() <= s.len() ==> #[trigger] s.subrange(
                    k,
                    k + include_open().len(),
                ) != "// #include <"@,
        },
{
    reveal_strlit("// #include <");
    lemma_find_seq_is_first_occurrence(s, include_open(), 0);
}

} // verus!
