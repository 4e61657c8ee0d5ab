use vstd::prelude::*;
use vstd::std_specs::cmp::PartialEqSpec;

verus! {

/// Index of the last occurrence of `c` in `s`, or -1 when it does not occur.
pub open spec fn last_index_of(s: Seq<char>, c: char) -> int
    decreases s.len(),
{
    if s.len() == 0 {
        -1
    } else if s.last() == c {
        s.len() - 1
    } else {
        last_index_of(s.drop_last(), c)
    }
}

/// Bounds of `last_index_of`, and that it is the last occurrence.
pub proof fn lemma_last_index_of(s: Seq<char>, c: char)
    ensures
        -1 <= last_index_of(s, c) < s.len(),
        last_index_of(s, c) >= 0 ==> s[last_index_of(s, c)] == c,
        forall|j: int| last_index_of(s, c) < j < s.len() ==> s[j] != c,
    decreases s.len(),
{
    if s.len() > 0 && s.last() != c {
        lemma_last_index_of(s.drop_last(), c);
        assert forall|j: int| last_index_of(s, c) < j < s.len() implies s[j] != c by {
            if j < s.len() - 1 {
                assert(s[j] == s.drop_last()[j]);
            }
        }
    }
}

/// The name part of a reference holds no `/`.
pub proof fn lemma_ref_name_has_no_slash(s: Seq<char>)
    ensures
        !ref_name(s).contains('/'),
{
    lemma_last_index_of(s, '/');
    let k = last_index_of(s, '/');
    assert forall|j: int| 0 <= j < ref_name(s).len() implies ref_name(s)[j] != '/' by {
        assert(ref_name(s)[j] == s[k + 1 + j]);
    }
}

/// The view of an optional string.
pub open spec fn opt_view(o: Option<String>) -> Option<Seq<char>> {
    match o {
        Some(s) => Some(s@),
        None => None,
    }
}

/// Identifies one package that the package manager understands. The tags are
/// free-form metadata and take no part in identity.
#[derive(Debug)]
pub struct Package {
    pub name: String,
    pub repository: Option<String>,
    pub tags: Vec<String>,
}

/// The name part of a package reference: everything after its last `/`.
pub open spec fn ref_name(s: Seq<char>) -> Seq<char> {
    s.subrange(last_index_of(s, '/') + 1, s.len() as int)
}

/// The repository part of a package reference: everything before its last
/// `/`, absent when it holds no `/`.
pub open spec fn ref_repository(s: Seq<char>) -> Option<Seq<char>> {
    if last_index_of(s, '/') < 0 {
        None
    } else {
        Some(s.subrange(0, last_index_of(s, '/')))
    }
}

/// The text form of a package: `repository/name`, or the bare name.
pub open spec fn package_text(name: Seq<char>, repository: Option<Seq<char>>) -> Seq<char> {
    match repository {
        Some(r) => r + seq!['/'] + name,
        None => name,
    }
}

/// Tolerant package identity: the names match, and the repositories match
/// unless one side names none.
pub open spec fn same_package(
    name_a: Seq<char>,
    repo_a: Option<Seq<char>>,
    name_b: Seq<char>,
    repo_b: Option<Seq<char>>,
) -> bool {
    name_a == name_b && (repo_a is None || repo_b is None || repo_a == repo_b)
}

/// A package's identity: its name and its repository, if any.
pub type PackageId = (Seq<char>, Option<Seq<char>>);

/// The identity that a package reference names.
pub open spec fn ref_id(t: Seq<char>) -> PackageId {
    (ref_name(t), ref_repository(t))
}

/// Tolerant identity of two package identities.
pub open spec fn same_id(a: PackageId, b: PackageId) -> bool {
    same_package(a.0, a.1, b.0, b.1)
}

/// The identities of a sequence of packages.
pub open spec fn ids(s: Seq<Package>) -> Seq<PackageId> {
    s.map_values(|p: Package| p.id())
}

impl Package {
    pub open spec fn id(&self) -> PackageId {
        (self.name@, self.repo_view())
    }

    /// A package name holds no `/`.
    pub open spec fn wf(&self) -> bool {
        !self.name@.contains('/')
    }

    pub open spec fn repo_view(&self) -> Option<Seq<char>> {
        opt_view(self.repository)
    }

    pub open spec fn text(&self) -> Seq<char> {
        package_text(self.name@, self.repo_view())
    }

    pub open spec fn same(&self, other: &Package) -> bool {
        same_package(self.name@, self.repo_view(), other.name@, other.repo_view())
    }
}

/// Finds the index of the last `c` in `s`, if any.
pub fn find_last(s: &str, c: char) -> (r: Option<usize>)
    ensures
        match r {
            Some(i) => i as int == last_index_of(s@, c) && i < s@.len(),
            None => last_index_of(s@, c) == -1,
        },
{
    let n = s.unicode_len();
    let mut i: usize = n;
    proof {
        assert(s@.subrange(0, n as int) =~= s@);
    }
    while i > 0
        invariant
            i <= n,
            n == s@.len(),
            last_index_of(s@, c) == last_index_of(s@.subrange(0, i as int), c),
        decreases i,
    {
        let ch = s.get_char(i - 1);
        proof {
            let t = s@.subrange(0, i as int);
            assert(t.drop_last() =~= s@.subrange(0, i - 1));
        }
        if ch == c {
            proof {
                lemma_last_index_of(s@, c);
            }
            return Some(i - 1);
        }
        i = i - 1;
    }
    proof {
        assert(s@.subrange(0, 0) =~= Seq::<char>::empty());
    }
    None
}

impl Package {
    /// Reads a package reference: everything after the last `/` is the
    /// name, everything before it the repository.
    pub fn from_str(s: &str) -> (r: Package)
        ensures
            r.name@ == ref_name(s@),
            r.repo_view() == ref_repository(s@),
            r.tags@.len() == 0,
            r.wf(),
    {
        proof {
            lemma_ref_name_has_no_slash(s@);
        }
        let n = s.unicode_len();
        match find_last(s, '/') {
            Some(k) => {
                let repo = String::from_str(s.substring_char(0, k));
                let name = String::from_str(s.substring_char(k + 1, n));
                Package { name, repository: Some(repo), tags: Vec::new() }
            },
            None => {
                proof {
                    assert(s@.subrange(0, s@.len() as int) =~= s@);
                }
                Package { name: String::from_str(s), repository: None, tags: Vec::new() }
            },
        }
    }

    /// The text form, `repository/name` or the bare name.
    pub fn to_text(&self) -> (r: String)
        ensures
            r@ == self.text(),
    {
        match &self.repository {
            Some(repo) => {
                let mut t = repo.clone();
                t.append("/");
                t.append(self.name.as_str());
                proof {
                    reveal_strlit("/");
                }
                t
            },
            None => self.name.clone(),
        }
    }
}

/// Whether two optional repositories are compatible: equal, or one absent.
fn repositories_agree(a: &Option<String>, b: &Option<String>) -> (r: bool)
    ensures
        r == (opt_view(*a) is None || opt_view(*b) is None || opt_view(*a) == opt_view(*b)),
{
    match a {
        Some(x) => match b {
            Some(y) => {
                let same: bool = *x == *y;
                same
            },
            None => true,
        },
        None => true,
    }
}

impl PartialEq for Package {
    fn eq(&self, other: &Package) -> (r: bool)
        ensures
            r == self.same(other),
    {
        self.name == other.name && repositories_agree(&self.repository, &other.repository)
    }
}

impl vstd::std_specs::cmp::PartialEqSpecImpl for Package {
    open spec fn obeys_eq_spec() -> bool {
        true
    }

    open spec fn eq_spec(&self, other: &Package) -> bool {
        self.same(other)
    }
}

/// Lexicographic order of two character sequences (code point by code
/// point, a proper prefix first).
pub open spec fn text_order(a: Seq<char>, b: Seq<char>) -> std::cmp::Ordering
    decreases a.len(),
{
    if a.len() == 0 {
        if b.len() == 0 {
            std::cmp::Ordering::Equal
        } else {
            std::cmp::Ordering::Less
        }
    } else if b.len() == 0 {
        std::cmp::Ordering::Greater
    } else if (a[0] as u32) < (b[0] as u32) {
        std::cmp::Ordering::Less
    } else if (a[0] as u32) > (b[0] as u32) {
        std::cmp::Ordering::Greater
    } else {
        text_order(a.drop_first(), b.drop_first())
    }
}

/// Order of optional repositories: none first, then by text.
pub open spec fn repository_order(a: Option<Seq<char>>, b: Option<Seq<char>>) -> std::cmp::Ordering {
    match (a, b) {
        (None, None) => std::cmp::Ordering::Equal,
        (None, Some(_)) => std::cmp::Ordering::Less,
        (Some(_), None) => std::cmp::Ordering::Greater,
        (Some(x), Some(y)) => text_order(x, y),
    }
}

/// Packages order by name, then by repository.
pub open spec fn package_order(a: PackageId, b: PackageId) -> std::cmp::Ordering {
    match text_order(a.0, b.0) {
        std::cmp::Ordering::Equal => repository_order(a.1, b.1),
        o => o,
    }
}

/// `text_order` from position `i` on, where both agree before it.
proof fn lemma_text_order_suffix(a: Seq<char>, b: Seq<char>, i: int)
    requires
        0 <= i <= a.len(),
        i <= b.len(),
    ensures
        text_order(a.subrange(i, a.len() as int), b.subrange(i, b.len() as int)) == if i < a.len()
            && i < b.len() && a[i] == b[i] {
            text_order(a.subrange(i + 1, a.len() as int), b.subrange(i + 1, b.len() as int))
        } else {
            text_order(a.subrange(i, a.len() as int), b.subrange(i, b.len() as int))
        },
{
    let sa = a.subrange(i, a.len() as int);
    let sb = b.subrange(i, b.len() as int);
    if i < a.len() && i < b.len() && a[i] == b[i] {
        assert(sa.drop_first() =~= a.subrange(i + 1, a.len() as int));
        assert(sb.drop_first() =~= b.subrange(i + 1, b.len() as int));
        assert(sa[0] == sb[0]);
    }
}

/// Compares two texts lexicographically.
pub fn compare_text(a: &str, b: &str) -> (r: std::cmp::Ordering)
    ensures
        r == text_order(a@, b@),
{
    let n = a.unicode_len();
    let m = b.unicode_len();
    let mut i: usize = 0;
    proof {
        assert(a@.subrange(0, n as int) =~= a@);
        assert(b@.subrange(0, m as int) =~= b@);
    }
    while i < n && i < m && a.get_char(i) == b.get_char(i)
        invariant
            n == a@.len(),
            m == b@.len(),
            i <= n,
            i <= m,
            text_order(a@, b@) == text_order(
                a@.subrange(i as int, n as int),
                b@.subrange(i as int, m as int),
            ),
        decreases n - i,
    {
        proof {
            lemma_text_order_suffix(a@, b@, i as int);
        }
        i = i + 1;
    }
    let ghost sa = a@.subrange(i as int, n as int);
    let ghost sb = b@.subrange(i as int, m as int);
    if i == n {
        if i == m {
            std::cmp::Ordering::Equal
        } else {
            std::cmp::Ordering::Less
        }
    } else if i == m {
        std::cmp::Ordering::Greater
    } else {
        let x = a.get_char(i);
        let y = b.get_char(i);
        proof {
            assert(sa[0] == x && sb[0] == y);
        }
        if (x as u32) < (y as u32) {
            std::cmp::Ordering::Less
        } else {
            std::cmp::Ordering::Greater
        }
    }
}

impl PartialOrd for Package {
    fn partial_cmp(&self, other: &Package) -> (r: Option<std::cmp::Ordering>)
        ensures
            r == Some(package_order(self.id(), other.id())),
    {
        let by_name = compare_text(self.name.as_str(), other.name.as_str());
        match by_name {
            std::cmp::Ordering::Equal => Some(
                match &self.repository {
                    None => match &other.repository {
                        None => std::cmp::Ordering::Equal,
                        Some(_) => std::cmp::Ordering::Less,
                    },
                    Some(x) => match &other.repository {
                        None => std::cmp::Ordering::Greater,
                        Some(y) => compare_text(x.as_str(), y.as_str()),
                    },
                },
            ),
            o => Some(o),
        }
    }
}

impl Eq for Package {
}

impl std::hash::Hash for Package {
    /// Relies on `Hash` for `String`: hashes the name alone, so that
    /// packages that are equal (whatever the repositories) hash alike.
    #[verifier::external_body]
    fn hash<H: std::hash::Hasher>(&self, state: &mut H) {
        self.name.hash(state)
    }
}

impl vstd::std_specs::cmp::PartialOrdSpecImpl for Package {
    open spec fn obeys_partial_cmp_spec() -> bool {
        true
    }

    open spec fn partial_cmp_spec(&self, other: &Package) -> Option<std::cmp::Ordering> {
        Some(package_order(self.id(), other.id()))
    }
}

/// Appending characters other than `c` leaves the last `c` where it was.
pub proof fn lemma_last_index_of_append(x: Seq<char>, y: Seq<char>, c: char)
    requires
        !y.contains(c),
    ensures
        last_index_of(x + y, c) == last_index_of(x, c),
    decreases y.len(),
{
    if y.len() > 0 {
        assert((x + y).drop_last() =~= x + y.drop_last());
        assert(y[y.len() - 1] == (x + y).last());
        assert(!y.drop_last().contains(c)) by {
            if y.drop_last().contains(c) {
                let j = choose|j: int| 0 <= j < y.drop_last().len() && y.drop_last()[j] == c;
                assert(y[j] == c);
            }
        }
        lemma_last_index_of_append(x, y.drop_last(), c);
    } else {
        assert(x + y =~= x);
    }
}

/// Reading the text form of a package gives back its name and repository.
pub proof fn lemma_package_text_round_trip(p: Package)
    requires
        p.wf(),
    ensures
        ref_name(p.text()) == p.name@,
        ref_repository(p.text()) == p.repo_view(),
{
    let t = p.text();
    match p.repo_view() {
        Some(r) => {
            lemma_last_index_of_append(r + seq!['/'], p.name@, '/');
            assert(last_index_of(r + seq!['/'], '/') == r.len()) by {
                assert((r + seq!['/']).last() == '/');
            }
            assert(t.subrange(r.len() as int + 1, t.len() as int) =~= p.name@);
            assert(t.subrange(0, r.len() as int) =~= r);
        },
        None => {
            lemma_last_index_of_append(Seq::<char>::empty(), p.name@, '/');
            assert(Seq::<char>::empty() + p.name@ =~= p.name@);
            assert(t.subrange(0, t.len() as int) =~= t);
        },
    }
}

/// Two references to the same name are the same package whenever one of
/// them names no repository, whatever the other names.
pub proof fn lemma_unqualified_matches_any(a: Package, b: Package)
    requires
        a.name@ == b.name@,
        a.repository is None || b.repository is None,
    ensures
        a.eq_spec(&b),
        b.eq_spec(&a),
{
}

/// The segments of `s` between its `/` separators (always at least one).
pub open spec fn split_slash(s: Seq<char>) -> Seq<Seq<char>>
    decreases s.len(),
{
    if s.len() == 0 {
        seq![Seq::<char>::empty()]
    } else {
        let prev = split_slash(s.drop_last());
        if s.last() == '/' {
            prev.push(Seq::<char>::empty())
        } else {
            prev.update(prev.len() - 1, prev.last().push(s.last()))
        }
    }
}

/// Segments joined with `/` between them.
pub open spec fn join_slash(segs: Seq<Seq<char>>) -> Seq<char>
    decreases segs.len(),
{
    if segs.len() == 0 {
        Seq::<char>::empty()
    } else if segs.len() == 1 {
        segs[0]
    } else {
        join_slash(segs.drop_last()) + seq!['/'] + segs.last()
    }
}

/// The views of a sequence of strings.
pub open spec fn strings_view(v: Seq<String>) -> Seq<Seq<char>> {
    v.map_values(|s: String| s@)
}

/// The views of a sequence of optional strings.
pub open spec fn opt_strings_view(v: Seq<Option<String>>) -> Seq<Option<Seq<char>>> {
    v.map_values(|o: Option<String>| opt_view(o))
}

/// A named grouping of the declaration tree, with the names of the categories
/// that enclose it, outermost first.
#[derive(Debug)]
pub struct Category {
    pub name: String,
    pub path: Vec<String>,
}

/// A copy of a sequence of strings.
pub fn copy_strings(v: &Vec<String>) -> (r: Vec<String>)
    ensures
        strings_view(r@) == strings_view(v@),
{
    let mut r: Vec<String> = Vec::new();
    let mut i: usize = 0;
    while i < v.len()
        invariant
            i <= v@.len(),
            strings_view(r@) == strings_view(v@).subrange(0, i as int),
        decreases v@.len() - i,
    {
        let ghost prev = r@;
        let item: &String = &v[i];
        let c = item.clone();
        r.push(c);
        proof {
            assert(c@ == v@[i as int]@);
            assert(strings_view(r@) =~= strings_view(prev).push(c@));
            assert(strings_view(v@).subrange(0, i + 1) =~= strings_view(v@).subrange(
                0,
                i as int,
            ).push(c@));
        }
        i = i + 1;
    }
    proof {
        assert(strings_view(v@).subrange(0, v@.len() as int) =~= strings_view(v@));
    }
    r
}

/// Whether two sequences of strings are equal.
pub fn same_strings(a: &Vec<String>, b: &Vec<String>) -> (r: bool)
    ensures
        r == (strings_view(a@) == strings_view(b@)),
{
    if a.len() != b.len() {
        proof {
            assert(strings_view(a@).len() != strings_view(b@).len());
        }
        return false;
    }
    let mut i: usize = 0;
    while i < a.len()
        invariant
            a@.len() == b@.len(),
            i <= a@.len(),
            forall|k: int| 0 <= k < i ==> a@[k]@ == b@[k]@,
        decreases a@.len() - i,
    {
        if a[i] != b[i] {
            proof {
                assert(strings_view(a@)[i as int] != strings_view(b@)[i as int]);
            }
            return false;
        }
        i = i + 1;
    }
    proof {
        assert(strings_view(a@) =~= strings_view(b@));
    }
    true
}

impl PartialEq for Category {
    fn eq(&self, other: &Category) -> (r: bool)
        ensures
            r == (self.name@ == other.name@ && self.path_view() == other.path_view()),
    {
        self.name == other.name && same_strings(&self.path, &other.path)
    }
}

impl vstd::std_specs::cmp::PartialEqSpecImpl for Category {
    open spec fn obeys_eq_spec() -> bool {
        true
    }

    open spec fn eq_spec(&self, other: &Category) -> bool {
        self.name@ == other.name@ && self.path_view() == other.path_view()
    }
}

impl Category {
    pub open spec fn path_view(&self) -> Seq<Seq<char>> {
        strings_view(self.path@)
    }

    /// The canonical selector: the path and the name joined with `/`.
    pub open spec fn full_path_view(&self) -> Seq<char> {
        join_slash(self.path_view().push(self.name@))
    }

    /// Reads a category selector: the last segment is the name, the ones
    /// before it the path.
    pub fn from_str(s: &str) -> (r: Category)
        ensures
            r.name@ == ref_name(s@),
            r.path_view() == (if last_index_of(s@, '/') < 0 {
                Seq::<Seq<char>>::empty()
            } else {
                split_slash(s@.subrange(0, last_index_of(s@, '/')))
            }),
    {
        let n = s.unicode_len();
        match find_last(s, '/') {
            Some(k) => {
                let path = split_segments(s.substring_char(0, k));
                let name = String::from_str(s.substring_char(k + 1, n));
                Category { name, path }
            },
            None => {
                let path: Vec<String> = Vec::new();
                proof {
                    assert(s@.subrange(0, s@.len() as int) =~= s@);
                    assert(strings_view(path@) =~= Seq::<Seq<char>>::empty());
                }
                Category { name: String::from_str(s), path }
            },
        }
    }

    /// The path and the name joined with `/`.
    pub fn full_path(&self) -> (r: String)
        ensures
            r@ == self.full_path_view(),
    {
        let mut acc = String::new();
        let mut i: usize = 0;
        let n = self.path.len();
        proof {
            reveal_strlit("/");
        }
        while i < n
            invariant
                n == self.path@.len(),
                i <= n,
                acc@ == join_slash(self.path_view().subrange(0, i as int)),
            decreases n - i,
        {
            let ghost before = self.path_view().subrange(0, i as int);
            let ghost acc0 = acc@;
            if i > 0 {
                acc.append("/");
                proof {
                    reveal_strlit("/");
                    assert(acc@ == acc0 + seq!['/']);
                }
            }
            acc.append(self.path[i].as_str());
            proof {
                let after = self.path_view().subrange(0, i + 1);
                assert(after.drop_last() =~= before);
                assert(after.last() == self.path@[i as int]@);
                if i == 0 {
                    assert(acc@ =~= after[0]);
                } else {
                    assert(acc@ =~= acc0 + seq!['/'] + after.last());
                }
            }
            i = i + 1;
        }
        if n > 0 {
            acc.append("/");
        }
        acc.append(self.name.as_str());
        proof {
            let full = self.path_view().push(self.name@);
            assert(self.path_view().subrange(0, n as int) =~= self.path_view());
            assert(full.drop_last() =~= self.path_view());
            if n == 0 {
                assert(acc@ =~= full[0]);
            }
        }
        acc
    }
}

/// Splits `s` at each `/`.
fn split_segments(s: &str) -> (r: Vec<String>)
    ensures
        strings_view(r@) == split_slash(s@),
{
    let n = s.unicode_len();
    let mut segs: Vec<String> = Vec::new();
    let mut start: usize = 0;
    let mut i: usize = 0;
    proof {
        assert(s@.subrange(0, 0) =~= Seq::<char>::empty());
        assert(strings_view(segs@).push(s@.subrange(0, 0)) =~= split_slash(s@.subrange(0, 0)));
    }
    while i < n
        invariant
            n == s@.len(),
            start <= i <= n,
            strings_view(segs@).push(s@.subrange(start as int, i as int)) == split_slash(
                s@.subrange(0, i as int),
            ),
        decreases n - i,
    {
        let c = s.get_char(i);
        proof {
            assert(s@.subrange(0, i + 1).drop_last() =~= s@.subrange(0, i as int));
            assert(s@.subrange(0, i + 1).last() == c);
        }
        if c == '/' {
            let seg = String::from_str(s.substring_char(start, i));
            let ghost prev = segs@;
            segs.push(seg);
            start = i + 1;
            proof {
                assert(s@.subrange(start as int, i + 1) =~= Seq::<char>::empty());
                assert(strings_view(segs@) =~= strings_view(prev).push(seg@));
            }
        } else {
            proof {
                assert(s@.subrange(start as int, i + 1) =~= s@.subrange(start as int, i as int).push(c));
            }
        }
        i = i + 1;
    }
    let last = String::from_str(s.substring_char(start, n));
    let ghost prev = segs@;
    segs.push(last);
    proof {
        assert(s@.subrange(0, n as int) =~= s@);
        assert(strings_view(segs@) =~= strings_view(prev).push(last@));
    }
    segs
}

} // verus!
