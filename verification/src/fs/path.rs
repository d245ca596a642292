//! Paths: a `/`-separated string ([`Path`]), a growable path
//! ([`PathBuf`]) and the components of a path ([`Component`]).
use vstd::prelude::*;
use vstd::string::StrSliceExecFns;
use vstd::string::StringExecFns;

verus! {

/// Length of `s` without its trailing `/` characters.
pub open spec fn trimmed_len(s: Seq<char>) -> int
    decreases s.len(),
{
    if s.len() > 0 && s.last() == '/' { trimmed_len(s.drop_last()) } else { s.len() as int }
}

/// `s` without its trailing `/` characters.
pub open spec fn trim_slashes(s: Seq<char>) -> Seq<char> {
    s.subrange(0, trimmed_len(s))
}

/// Index of the last `c` in `s`.
pub open spec fn last_of(s: Seq<char>, c: char) -> Option<int>
    decreases s.len(),
{
    if s.len() == 0 {
        None
    } else if s.last() == c {
        Some(s.len() - 1)
    } else {
        last_of(s.drop_last(), c)
    }
}

proof fn lemma_last_of(s: Seq<char>, c: char)
    ensures
        match last_of(s, c) {
            Some(i) => 0 <= i < s.len() && s[i] == c && forall|k: int| i < k < s.len() ==> s[k] != c,
            None => forall|k: int| 0 <= k < s.len() ==> s[k] != c,
        },
    decreases s.len(),
{
    if s.len() > 0 {
        let t = s.drop_last();
        lemma_last_of(t, c);
        if s.last() != c {
            assert forall|k: int| 0 <= k < t.len() implies t[k] == s[k] by {}
            match last_of(t, c) {
                Some(i) => {
                    assert forall|k: int| i < k < s.len() implies s[k] != c by {
                        if k < t.len() {
                            assert(t[k] == s[k]);
                        }
                    }
                },
                None => {
                    assert forall|k: int| 0 <= k < s.len() implies s[k] != c by {
                        if k < t.len() {
                            assert(t[k] == s[k]);
                        }
                    }
                },
            }
        }
    }
}

proof fn lemma_trimmed_len(s: Seq<char>)
    ensures
        0 <= trimmed_len(s) <= s.len(),
    decreases s.len(),
{
    if s.len() > 0 {
        lemma_trimmed_len(s.drop_last());
    }
}

/// The parent of path `p`: `"/a/b"` has parent `"/a"`, `"/a"` has `"/"`,
/// `"a/b"` has `"a"`, `"a"` has `""`; `"/"` and `""` have none.
pub open spec fn parent_of(p: Seq<char>) -> Option<Seq<char>> {
    let t = trim_slashes(p);
    if t.len() == 0 {
        None
    } else {
        match last_of(t, '/') {
            Some(i) => if i == 0 { Some(seq!['/']) } else { Some(t.subrange(0, i)) },
            None => Some(Seq::empty()),
        }
    }
}

/// The last component of path `p`: `"/a/b"` gives `"b"`; `"/"` and `""`
/// give none.
pub open spec fn file_name_of(p: Seq<char>) -> Option<Seq<char>> {
    let t = trim_slashes(p);
    match last_of(t, '/') {
        Some(i) => if i + 1 < t.len() { Some(t.subrange(i + 1, t.len() as int)) } else { None },
        None => if t.len() > 0 { Some(t) } else { None },
    }
}

/// The extension of path `p`: what follows the last `.` of its file name,
/// when not empty.
pub open spec fn extension_of(p: Seq<char>) -> Option<Seq<char>> {
    match file_name_of(p) {
        Some(n) => match last_of(n, '.') {
            Some(i) => if i + 1 < n.len() { Some(n.subrange(i + 1, n.len() as int)) } else { None },
            None => None,
        },
        None => None,
    }
}

/// `p` starts with `/`.
pub open spec fn is_absolute_spec(p: Seq<char>) -> bool {
    p.len() > 0 && p[0] == '/'
}

/// `p` split at every `/` (empty parts kept).
pub open spec fn split_parts(p: Seq<char>) -> Seq<Seq<char>>
    decreases p.len(),
{
    if p.len() == 0 {
        seq![Seq::empty()]
    } else {
        let rest = split_parts(p.drop_last());
        if p.last() == '/' {
            rest.push(Seq::empty())
        } else {
            rest.update(rest.len() - 1, rest.last().push(p.last()))
        }
    }
}

/// A component as a value.
pub enum ComponentV {
    RootDir,
    CurDir,
    ParentDir,
    Normal(Seq<char>),
}

/// The component a non-empty part stands for.
pub open spec fn classify(part: Seq<char>) -> ComponentV {
    if part == seq!['.'] {
        ComponentV::CurDir
    } else if part == seq!['.', '.'] {
        ComponentV::ParentDir
    } else {
        ComponentV::Normal(part)
    }
}

/// The components of the parts `parts` (empty parts skipped).
pub open spec fn parts_components(parts: Seq<Seq<char>>) -> Seq<ComponentV>
    decreases parts.len(),
{
    if parts.len() == 0 {
        Seq::empty()
    } else {
        let rest = parts_components(parts.drop_last());
        if parts.last().len() == 0 { rest } else { rest.push(classify(parts.last())) }
    }
}

/// The components of path `p`: the root for an absolute path, then `.`,
/// `..` and normal components; repeated separators are skipped.
pub open spec fn components_spec(p: Seq<char>) -> Seq<ComponentV> {
    if is_absolute_spec(p) {
        seq![ComponentV::RootDir] + parts_components(split_parts(p))
    } else {
        parts_components(split_parts(p))
    }
}

/// `p` joined with `q`: `q` itself when absolute; otherwise `q` appended
/// after a separator (added only when `p` is non-empty and does not end in
/// one); an empty `q` leaves `p`.
pub open spec fn pushed(p: Seq<char>, q: Seq<char>) -> Seq<char> {
    if is_absolute_spec(q) {
        q
    } else if q.len() == 0 {
        p
    } else if p.len() > 0 && p.last() != '/' {
        p + seq!['/'] + q
    } else {
        p + q
    }
}

/// Path `p` without its last component: cut before the last `/` of
/// `p` without trailing `/` (keeping a leading `/`), or empty when that
/// has no `/`.
pub open spec fn popped(p: Seq<char>) -> Seq<char> {
    match last_of(trim_slashes(p), '/') {
        Some(i) => p.subrange(0, if i == 0 { 1 } else { i }),
        None => Seq::<char>::empty(),
    }
}

/// `c` is one path component: not empty, no `/`.
pub open spec fn is_name(c: Seq<char>) -> bool {
    c.len() > 0 && !c.contains('/')
}

proof fn lemma_last_of_append(q: Seq<char>, n: Seq<char>)
    requires
        !n.contains('/'),
    ensures
        last_of(q + n, '/') == last_of(q, '/'),
    decreases n.len(),
{
    if n.len() > 0 {
        assert((q + n).drop_last() =~= q + n.drop_last());
        assert((q + n).last() == n.last());
        assert(!n.drop_last().contains('/')) by {
            if n.drop_last().contains('/') {
                let k = choose|k: int| 0 <= k < n.drop_last().len() && n.drop_last()[k] == '/';
                assert(n[k] == '/');
            }
        }
        assert(n.last() != '/') by {
            assert(n[n.len() - 1] == n.last());
        }
        lemma_last_of_append(q, n.drop_last());
    } else {
        assert(q + n =~= q);
    }
}

proof fn lemma_trimmed_name(q: Seq<char>, n: Seq<char>)
    requires
        is_name(n),
    ensures
        trimmed_len(q + n) == q.len() + n.len(),
{
    assert((q + n).last() == n[n.len() - 1]);
    assert(n[n.len() - 1] != '/');
}

/// Popping right after pushing one component gives the path back, when
/// the path is empty, is `/`, or does not end in `/`.
pub proof fn lemma_pop_undoes_push(p: Seq<char>, c: Seq<char>)
    requires
        is_name(c),
        p.len() == 0 || p == seq!['/'] || p.last() != '/',
    ensures
        trimmed_len(pushed(p, c)) > 0,
        popped(pushed(p, c)) == p,
{
    let q = pushed(p, c);
    assert(!is_absolute_spec(c)) by {
        assert(c[0] != '/');
    }
    let pre = if p.len() > 0 && p.last() != '/' { p + seq!['/'] } else { p };
    assert(q =~= pre + c);
    lemma_trimmed_name(pre, c);
    assert(trim_slashes(q) =~= q);
    lemma_last_of_append(pre, c);
    if p.len() > 0 && p.last() != '/' {
        assert(pre.drop_last() =~= p);
        assert(last_of(pre, '/') == Some(p.len() as int));
        if p.len() as int == 0 {
        }
        assert(q.subrange(0, p.len() as int) =~= p);
    } else if p.len() == 0 {
        assert(last_of(pre, '/') == None::<int>);
    } else {
        assert(pre =~= seq!['/']);
        assert(pre.drop_last() =~= Seq::<char>::empty());
        assert(last_of(pre, '/') == Some(0int));
        assert(q.subrange(0, 1) =~= p);
    }
}

/// After replacing the file name by a component `n`, the file name is
/// `n`.
pub proof fn lemma_set_file_name(p: Seq<char>, n: Seq<char>)
    requires
        is_name(n),
    ensures
        file_name_of(match parent_of(p) {
            Some(q) => if q.len() > 0 && q.last() != '/' { q + seq!['/'] + n } else { q + n },
            None => if is_absolute_spec(p) { seq!['/'] + n } else { n },
        }) == Some(n),
{
    let pre = match parent_of(p) {
        Some(q) => if q.len() > 0 && q.last() != '/' { q + seq!['/'] } else { q },
        None => if is_absolute_spec(p) { seq!['/'] } else { Seq::<char>::empty() },
    };
    let r = pre + n;
    assert(r =~= match parent_of(p) {
        Some(q) => if q.len() > 0 && q.last() != '/' { q + seq!['/'] + n } else { q + n },
        None => if is_absolute_spec(p) { seq!['/'] + n } else { n },
    });
    lemma_trimmed_name(pre, n);
    assert(trim_slashes(r) =~= r);
    lemma_last_of_append(pre, n);
    assert(pre.len() > 0 ==> pre.last() == '/');
    if pre.len() > 0 {
        assert(last_of(pre, '/') == Some(pre.len() - 1));
        assert(r.subrange(pre.len() as int, r.len() as int) =~= n);
    } else {
        assert(last_of(pre, '/') == None::<int>);
        assert(r =~= n);
    }
}

/// Length of `s` without trailing `/`.
fn trimmed(s: &str) -> (r: usize)
    ensures
        r == trimmed_len(s@),
        r <= s@.len(),
{
    let mut i = s.unicode_len();
    assert(s@.subrange(0, i as int) =~= s@);
    while i > 0 && s.get_char(i - 1) == '/'
        invariant
            i <= s@.len(),
            trimmed_len(s@) == trimmed_len(s@.subrange(0, i as int)),
        decreases i,
    {
        assert(s@.subrange(0, i as int).drop_last() =~= s@.subrange(0, i - 1));
        i = i - 1;
    }
    i
}

/// Index of the last `c` among the first `end` characters of `s`.
fn last_index(s: &str, end: usize, c: char) -> (r: Option<usize>)
    requires
        end <= s@.len(),
    ensures
        match r {
            Some(i) => last_of(s@.subrange(0, end as int), c) == Some(i as int) && i < end,
            None => last_of(s@.subrange(0, end as int), c) == None::<int>,
        },
{
    let mut i = end;
    while i > 0
        invariant
            i <= end <= s@.len(),
            last_of(s@.subrange(0, end as int), c) == last_of(s@.subrange(0, i as int), c),
        decreases i,
    {
        assert(s@.subrange(0, i as int).drop_last() =~= s@.subrange(0, i - 1));
        if s.get_char(i - 1) == c {
            return Some(i - 1);
        }
        i = i - 1;
    }
    None
}

/// A path.
pub struct Path {
    inner: String,
}

impl View for Path {
    type V = Seq<char>;

    closed spec fn view(&self) -> Seq<char> {
        self.inner@
    }
}

impl Path {
    /// A path holding `s`.
    pub fn new(s: &str) -> (r: Path)
        ensures
            r@ == s@,
    {
        Path { inner: String::from_str(s) }
    }

    /// A path holding `s` (same as [`Path::new`]).
    pub fn from_str(s: &str) -> (r: Path)
        ensures
            r@ == s@,
    {
        Path::new(s)
    }

    /// A path holding `s`.
    pub fn from_string(s: String) -> (r: Path)
        ensures
            r@ == s@,
    {
        Path { inner: s }
    }

    /// The path as a string.
    pub fn as_str(&self) -> (r: &str)
        ensures
            r@ == self@,
    {
        self.inner.as_str()
    }

    /// A copy of this path.
    pub fn copy(&self) -> (r: Path)
        ensures
            r@ == self@,
    {
        Path::new(self.as_str())
    }

    /// Whether the path starts with `/`.
    pub fn is_absolute(&self) -> (r: bool)
        ensures
            r == is_absolute_spec(self@),
    {
        let s = self.as_str();
        s.unicode_len() > 0 && s.get_char(0) == '/'
    }

    /// Whether the path does not start with `/`.
    pub fn is_relative(&self) -> (r: bool)
        ensures
            r == !is_absolute_spec(self@),
    {
        !self.is_absolute()
    }

    /// The parent path (see [`parent_of`]).
    pub fn parent(&self) -> (r: Option<&str>)
        ensures
            match r {
                Some(s) => parent_of(self@) == Some(s@),
                None => parent_of(self@) == None::<Seq<char>>,
            },
    {
        let s = self.as_str();
        let t = trimmed(s);
        if t == 0 {
            return None;
        }
        assert(trim_slashes(self@) =~= s@.subrange(0, t as int));
        match last_index(s, t, '/') {
            Some(0) => {
                let root = "/";
                proof {
                    reveal_strlit("/");
                }
                assert(root@ =~= seq!['/']);
                Some(root)
            },
            Some(pos) => {
                let p = s.substring_char(0, pos);
                assert(p@ =~= trim_slashes(self@).subrange(0, pos as int));
                Some(p)
            },
            None => {
                let e = s.substring_char(0, 0);
                assert(e@ =~= Seq::<char>::empty());
                Some(e)
            },
        }
    }

    /// The last component (see [`file_name_of`]).
    pub fn file_name(&self) -> (r: Option<&str>)
        ensures
            match r {
                Some(s) => file_name_of(self@) == Some(s@),
                None => file_name_of(self@) == None::<Seq<char>>,
            },
    {
        let s = self.as_str();
        let t = trimmed(s);
        assert(trim_slashes(self@) =~= s@.subrange(0, t as int));
        match last_index(s, t, '/') {
            Some(pos) => {
                if pos + 1 < t {
                    let n = s.substring_char(pos + 1, t);
                    assert(n@ =~= trim_slashes(self@).subrange(pos + 1, t as int));
                    Some(n)
                } else {
                    None
                }
            },
            None => {
                if t > 0 {
                    let n = s.substring_char(0, t);
                    Some(n)
                } else {
                    None
                }
            },
        }
    }

    /// The extension (see [`extension_of`]).
    pub fn extension(&self) -> (r: Option<&str>)
        ensures
            match r {
                Some(s) => extension_of(self@) == Some(s@),
                None => extension_of(self@) == None::<Seq<char>>,
            },
    {
        let name = match self.file_name() {
            Some(n) => n,
            None => return None,
        };
        let len = name.unicode_len();
        assert(name@.subrange(0, len as int) =~= name@);
        match last_index(name, len, '.') {
            Some(pos) => {
                if pos + 1 < len {
                    Some(name.substring_char(pos + 1, len))
                } else {
                    None
                }
            },
            None => None,
        }
    }

    /// The path as a [`PathBuf`].
    pub fn to_path_buf(&self) -> (r: PathBuf)
        ensures
            r@ == self@,
    {
        PathBuf { inner: self.copy() }
    }

    /// `self` joined with `path` (see [`pushed`]).
    pub fn join(&self, path: &Path) -> (r: PathBuf)
        ensures
            r@ == pushed(self@, path@),
    {
        let mut b = self.to_path_buf();
        b.push(path);
        b
    }
}

/// A growable path.
pub struct PathBuf {
    inner: Path,
}

impl View for PathBuf {
    type V = Seq<char>;

    closed spec fn view(&self) -> Seq<char> {
        self.inner@
    }
}

impl PathBuf {
    /// The empty path.
    pub fn new() -> (r: PathBuf)
        ensures
            r@ == Seq::<char>::empty(),
    {
        PathBuf { inner: Path { inner: String::new() } }
    }

    /// A path buffer holding `s`.
    pub fn from_str(s: &str) -> (r: PathBuf)
        ensures
            r@ == s@,
    {
        PathBuf { inner: Path::new(s) }
    }

    /// Appends `path` (see [`pushed`]): an absolute `path` replaces the
    /// whole buffer.
    pub fn push(&mut self, path: &Path)
        ensures
            final(self)@ == pushed(old(self)@, path@),
    {
        if path.is_absolute() {
            self.inner = path.copy();
            return;
        }
        let p = path.as_str();
        if p.unicode_len() > 0 {
            let s = self.inner.inner.as_str();
            let n = s.unicode_len();
            if n > 0 && s.get_char(n - 1) != '/' {
                let sep = "/";
                proof {
                    reveal_strlit("/");
                }
                self.inner.inner.append(sep);
            }
            self.inner.inner.append(p);
        }
    }

    /// Removes the last component; `false` when there is none (`"/"`,
    /// `""`).  `"/a"` becomes `"/"`, `"a"` becomes `""`.
    pub fn pop(&mut self) -> (r: bool)
        ensures
            r == (trimmed_len(old(self)@) > 0),
            !r ==> final(self)@ == old(self)@,
            r ==> final(self)@ == popped(old(self)@),
    {
        let s = self.inner.as_str();
        let t = trimmed(s);
        if t == 0 {
            return false;
        }
        assert(trim_slashes(self@) =~= s@.subrange(0, t as int));
        match last_index(s, t, '/') {
            Some(pos) => {
                let keep = if pos == 0 { 1 } else { pos };
                let kept = String::from_str(s.substring_char(0, keep));
                self.inner.inner = kept;
                true
            },
            None => {
                self.inner.inner = String::new();
                true
            },
        }
    }

    /// Replaces the file name by `name`: appended to the parent (with a
    /// separator when the parent is non-empty and does not end in one),
    /// or to `/` or `""` when there is no parent.
    pub fn set_file_name(&mut self, name: &str)
        ensures
            final(self)@ == match parent_of(old(self)@) {
                Some(p) => if p.len() > 0 && p.last() != '/' { p + seq!['/'] + name@ } else { p + name@ },
                None => if is_absolute_spec(old(self)@) { seq!['/'] + name@ } else { name@ },
            },
    {
        let sep = "/";
        proof {
            reveal_strlit("/");
        }
        assert(sep@ =~= seq!['/']);
        let new = match self.inner.parent() {
            Some(parent) => {
                let mut new = String::from_str(parent);
                let n = parent.unicode_len();
                if n > 0 && parent.get_char(n - 1) != '/' {
                    new.append(sep);
                }
                new.append(name);
                new
            },
            None => {
                let mut new = if self.inner.is_absolute() { String::from_str(sep) } else { String::new() };
                new.append(name);
                new
            },
        };
        self.inner.inner = new;
    }

    /// `self` joined with `path` (see [`pushed`]).
    pub fn join(&self, path: &Path) -> (r: PathBuf)
        ensures
            r@ == pushed(self@, path@),
    {
        let mut b = self.inner.to_path_buf();
        b.push(path);
        b
    }

    /// The buffer as a [`Path`].
    pub fn as_path(&self) -> (r: &Path)
        ensures
            r@ == self@,
    {
        &self.inner
    }

    /// The path as a string.
    pub fn into_string(self) -> (r: String)
        ensures
            r@ == self@,
    {
        self.inner.inner
    }
}

/// A component of a path.
pub enum Component {
    /// The root directory `/`.
    RootDir,
    /// The current directory `.`.
    CurDir,
    /// The parent directory `..`.
    ParentDir,
    /// Any other component.
    Normal(String),
}

impl View for Component {
    type V = ComponentV;

    open spec fn view(&self) -> ComponentV {
        match self {
            Component::RootDir => ComponentV::RootDir,
            Component::CurDir => ComponentV::CurDir,
            Component::ParentDir => ComponentV::ParentDir,
            Component::Normal(s) => ComponentV::Normal(s@),
        }
    }
}

/// The text of a component: empty for the root, `.`, `..`, or the name.
pub open spec fn component_text(c: ComponentV) -> Seq<char> {
    match c {
        ComponentV::RootDir => Seq::empty(),
        ComponentV::CurDir => seq!['.'],
        ComponentV::ParentDir => seq!['.', '.'],
        ComponentV::Normal(s) => s,
    }
}

impl Component {
    /// The text of the component (empty for the root).
    pub fn as_str(&self) -> (r: &str)
        ensures
            r@ == component_text(self@),
    {
        match self {
            Component::RootDir => {
                let e = "";
                proof {
                    reveal_strlit("");
                }
                assert(e@ =~= Seq::<char>::empty());
                e
            },
            Component::CurDir => {
                let e = ".";
                proof {
                    reveal_strlit(".");
                }
                assert(e@ =~= seq!['.']);
                e
            },
            Component::ParentDir => {
                let e = "..";
                proof {
                    reveal_strlit("..");
                }
                assert(e@ =~= seq!['.', '.']);
                e
            },
            Component::Normal(s) => s.as_str(),
        }
    }

    /// A copy of the component.
    pub fn copy(&self) -> (r: Component)
        ensures
            r@ == self@,
    {
        match self {
            Component::RootDir => Component::RootDir,
            Component::CurDir => Component::CurDir,
            Component::ParentDir => Component::ParentDir,
            Component::Normal(s) => Component::Normal(s.clone()),
        }
    }

    /// Whether two components are equal.
    pub fn same(&self, other: &Component) -> (r: bool)
        ensures
            r == (self@ == other@),
    {
        match (self, other) {
            (Component::RootDir, Component::RootDir) => true,
            (Component::CurDir, Component::CurDir) => true,
            (Component::ParentDir, Component::ParentDir) => true,
            (Component::Normal(a), Component::Normal(b)) => a.eq(b),
            _ => false,
        }
    }
}

/// The components of a path, returned one at a time.
pub struct Components {
    items: Vec<Component>,
    next: usize,
}

/// Views of the components in `v`.
pub open spec fn views(v: Seq<Component>) -> Seq<ComponentV> {
    v.map_values(|c: Component| c@)
}

impl Components {
    /// The components not yet returned.
    pub closed spec fn rest(&self) -> Seq<ComponentV> {
        if self.next <= self.items@.len() {
            views(self.items@.subrange(self.next as int, self.items@.len() as int))
        } else {
            Seq::empty()
        }
    }

    /// The next component, if any.
    pub fn next(&mut self) -> (r: Option<Component>)
        ensures
            old(self).rest().len() == 0 ==> r is None && final(self).rest() == old(self).rest(),
            old(self).rest().len() > 0 ==> (r matches Some(c) && c@ == old(self).rest()[0]
                && final(self).rest() == old(self).rest().drop_first()),
    {
        if self.next < self.items.len() {
            let c = self.items[self.next].copy();
            let ghost before = self.rest();
            proof {
                assert(before[0] == self.items@[self.next as int]@);
            }
            self.next = self.next + 1;
            proof {
                assert(self.rest() =~= before.drop_first());
            }
            Some(c)
        } else {
            None
        }
    }
}

/// The component of a non-empty part of `s`.
fn classify_part(part: &str) -> (r: Component)
    requires
        part@.len() > 0,
    ensures
        r@ == classify(part@),
{
    let n = part.unicode_len();
    if n == 1 && part.get_char(0) == '.' {
        assert(part@ =~= seq!['.']);
        Component::CurDir
    } else if n == 2 && part.get_char(0) == '.' && part.get_char(1) == '.' {
        assert(part@ =~= seq!['.', '.']);
        Component::ParentDir
    } else {
        assert(part@ != seq!['.']) by {
            if part@ =~= seq!['.'] {
                assert(part@[0] == '.');
            }
        }
        assert(part@ != seq!['.', '.']) by {
            if part@ =~= seq!['.', '.'] {
                assert(part@[0] == '.' && part@[1] == '.');
            }
        }
        Component::Normal(String::from_str(part))
    }
}

impl Path {
    /// The components of the path, in order.
    fn component_vec(&self) -> (r: Vec<Component>)
        ensures
            views(r@) == components_spec(self@),
    {
        let s = self.as_str();
        let n = s.unicode_len();
        let mut items: Vec<Component> = Vec::new();
        let abs = self.is_absolute();
        if abs {
            items.push(Component::RootDir);
        }
        let ghost head: Seq<ComponentV> = if abs { seq![ComponentV::RootDir] } else { Seq::empty() };
        assert(views(items@) =~= head);
        let ghost mut done: Seq<Seq<char>> = Seq::empty();
        let mut start: usize = 0;
        let mut i: usize = 0;
        assert(s@.subrange(0, 0) =~= Seq::<char>::empty());
        assert(split_parts(s@.subrange(0, 0)) =~= done.push(s@.subrange(0, 0)));
        while i < n
            invariant
                n == s@.len(),
                start <= i <= n,
                split_parts(s@.subrange(0, i as int)) == done.push(s@.subrange(start as int, i as int)),
                views(items@) == head + parts_components(done),
            decreases n - i,
        {
            let ghost pre = s@.subrange(0, i as int);
            let ghost post = s@.subrange(0, i + 1);
            assert(post.drop_last() =~= pre);
            let ghost cur = s@.subrange(start as int, i as int);
            let ghost before = items@;
            if s.get_char(i) == '/' {
                if start < i {
                    let part = s.substring_char(start, i);
                    let c = classify_part(part);
                    items.push(c);
                    assert(views(items@) =~= views(before).push(c@));
                }
                proof {
                    assert(done.push(cur).drop_last() =~= done);
                    assert(done.push(cur).last() == cur);
                    if start < i {
                        assert(cur.len() > 0);
                    } else {
                        assert(cur.len() == 0);
                    }
                    assert(views(items@) =~= head + parts_components(done.push(cur)));
                    done = done.push(cur);
                }
                start = i + 1;
                proof {
                    assert(s@.subrange(start as int, i + 1) =~= Seq::<char>::empty());
                    assert(split_parts(post) =~= done.push(s@.subrange(start as int, i + 1)));
                }
            } else {
                proof {
                    assert(s@.subrange(start as int, i + 1) =~= cur.push(s@[i as int]));
                    assert(done.push(cur).update(done.len() as int, cur.push(s@[i as int])) =~= done.push(cur.push(s@[i as int])));
                }
            }
            i = i + 1;
        }
        let ghost cur = s@.subrange(start as int, n as int);
        let ghost before = items@;
        if start < n {
            let part = s.substring_char(start, n);
            let c = classify_part(part);
            items.push(c);
            assert(views(items@) =~= views(before).push(c@));
        }
        proof {
            assert(s@.subrange(0, n as int) =~= s@);
            assert(done.push(cur).drop_last() =~= done);
            assert(done.push(cur).last() == cur);
            if start < n {
                assert(cur.len() > 0);
            } else {
                assert(cur.len() == 0);
            }
            assert(views(items@) =~= head + parts_components(done.push(cur)));
        }
        items
    }

    /// The components of the path (see [`components_spec`]).
    pub fn components(&self) -> (r: Components)
        ensures
            r.rest() == components_spec(self@),
    {
        let items = self.component_vec();
        let r = Components { items, next: 0 };
        assert(r.items@.subrange(0, r.items@.len() as int) =~= r.items@);
        r
    }

    /// Whether the components of `base` are the first components of this
    /// path.
    pub fn starts_with(&self, base: &Path) -> (r: bool)
        ensures
            r == (components_spec(base@).len() <= components_spec(self@).len()
                && components_spec(self@).subrange(0, components_spec(base@).len() as int) == components_spec(base@)),
    {
        let a = self.component_vec();
        let b = base.component_vec();
        if b.len() > a.len() {
            return false;
        }
        let mut i: usize = 0;
        while i < b.len()
            invariant
                i <= b@.len() <= a@.len(),
                views(a@) == components_spec(self@),
                views(b@) == components_spec(base@),
                forall|k: int| 0 <= k < i ==> a@[k]@ == b@[k]@,
            decreases b@.len() - i,
        {
            if !a[i].same(&b[i]) {
                proof {
                    assert(views(a@).subrange(0, b@.len() as int)[i as int] != views(b@)[i as int]);
                }
                return false;
            }
            i = i + 1;
        }
        proof {
            assert(views(a@).subrange(0, b@.len() as int) =~= views(b@));
        }
        true
    }

    /// Whether the components of `child` are the last components of this
    /// path.
    pub fn ends_with(&self, child: &Path) -> (r: bool)
        ensures
            r == (components_spec(child@).len() <= components_spec(self@).len()
                && components_spec(self@).subrange(components_spec(self@).len() - components_spec(child@).len(),
                    components_spec(self@).len() as int) == components_spec(child@)),
    {
        let a = self.component_vec();
        let b = child.component_vec();
        if b.len() > a.len() {
            return false;
        }
        let al = a.len();
        let off = al - b.len();
        let mut i: usize = 0;
        while i < b.len()
            invariant
                al == a@.len(),
                i <= b@.len() <= a@.len(),
                off == a@.len() - b@.len(),
                views(a@) == components_spec(self@),
                views(b@) == components_spec(child@),
                forall|k: int| 0 <= k < i ==> a@[off + k]@ == b@[k]@,
            decreases b@.len() - i,
        {
            if !a[off + i].same(&b[i]) {
                proof {
                    assert(views(a@).subrange(off as int, a@.len() as int)[i as int] != views(b@)[i as int]);
                }
                return false;
            }
            i = i + 1;
        }
        proof {
            assert(views(a@).subrange(off as int, a@.len() as int) =~= views(b@));
        }
        true
    }
}

} // verus!
