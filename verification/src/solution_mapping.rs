use vstd::prelude::*;
use crate::errors::QueryProcessingError;
use crate::terms::{RDFNodeType, BaseRDFNodeType, Term, LitValue, type_wf, cell_fits,
    base_in_type, base_same, base_less, base_eq, base_of, term_wf,
    base_lt, base_seq_sorted, lemma_base_lt_transitive, literal_is_boolean,
    literal_is_integer, literal_is_float, literal_is_datetime};
use crate::text::str_eq;

verus! {

/// The typed solution relation: a table of solution rows together with a
/// recorded RDF type for every column.  The type map's key set equals the
/// column set by construction: entry `j` of `names` and of `types`
/// describes column `j` of every row.
pub struct SolutionMappings {
    pub names: Vec<String>,
    pub types: Vec<RDFNodeType>,
    pub rows: Vec<Vec<Option<Term>>>,
}

impl SolutionMappings {
    /// Number of columns.
    pub open spec fn width(self) -> int {
        self.names@.len() as int
    }

    /// Number of rows.
    pub open spec fn height(self) -> int {
        self.rows@.len() as int
    }

    /// The name of column `j`.
    pub open spec fn name(self, j: int) -> Seq<char> {
        self.names@[j]@
    }

    /// The cell of row `i`, column `j`.
    pub open spec fn cell(self, i: int, j: int) -> Option<Term> {
        self.rows@[i]@[j]
    }

    /// Whether some column bears the name `n`.
    pub open spec fn has_col(self, n: Seq<char>) -> bool {
        exists|j: int| 0 <= j < self.width() && self.name(j) == n
    }

    /// The index of the column named `n`.
    pub open spec fn col_index(self, n: Seq<char>) -> int {
        choose|j: int| 0 <= j < self.width() && self.name(j) == n
    }

    /// The recorded type of the column named `n`.
    pub open spec fn type_at(self, n: Seq<char>) -> RDFNodeType {
        self.types@[self.col_index(n)]
    }

    /// The cell of row `i` in the column named `n`.
    pub open spec fn cell_at(self, i: int, n: Seq<char>) -> Option<Term> {
        self.rows@[i]@[self.col_index(n)]
    }

    /// Column names are pairwise distinct.
    pub open spec fn names_distinct(self) -> bool {
        forall|i: int, j: int|
            0 <= i < j < self.width() ==> self.name(i) != self.name(j)
    }

    /// Well-formedness: one type per column, distinct names, rectangular
    /// rows, well-formed types, and every bound cell fitting its column's
    /// recorded type.
    pub open spec fn wf(self) -> bool {
        &&& self.types@.len() == self.width()
        &&& self.names_distinct()
        &&& forall|i: int| 0 <= i < self.height() ==> self.rows@[i]@.len() == self.width()
        &&& forall|j: int| 0 <= j < self.width() ==> type_wf(#[trigger] self.types@[j])
        &&& forall|i: int, j: int|
            0 <= i < self.height() && 0 <= j < self.width() ==> cell_fits(
                #[trigger] self.rows@[i]@[j],
                self.types@[j],
            )
    }

    /// With distinct names, a column's index is determined by its name.
    pub proof fn lemma_col_index(self, n: Seq<char>)
        requires
            self.names_distinct(),
            self.has_col(n),
        ensures
            0 <= self.col_index(n) < self.width(),
            self.name(self.col_index(n)) == n,
            forall|j: int| 0 <= j < self.width() && self.name(j) == n ==> j == self.col_index(n),
    {
    }
}

/// Clones one row of cells.
pub fn clone_row(r: &Vec<Option<Term>>) -> (c: Vec<Option<Term>>)
    ensures
        c@ == r@,
{
    let mut c: Vec<Option<Term>> = Vec::new();
    let mut i: usize = 0;
    while i < r.len()
        invariant
            0 <= i <= r@.len(),
            c@.len() == i,
            forall|k: int| 0 <= k < i ==> c@[k] == r@[k],
        decreases r@.len() - i,
    {
        c.push(crate::terms::clone_cell(&r[i]));
        i = i + 1;
    }
    proof {
        assert(c@ =~= r@);
    }
    c
}

/// Finds the column named `n`, if any.
pub fn find_col(sm: &SolutionMappings, n: &String) -> (r: Option<usize>)
    ensures
        match r {
            Option::Some(j) => 0 <= j < sm.width() && sm.name(j as int) == n@,
            Option::None => !sm.has_col(n@),
        },
{
    let mut j: usize = 0;
    while j < sm.names.len()
        invariant
            0 <= j <= sm.width(),
            forall|k: int| 0 <= k < j ==> sm.name(k) != n@,
        decreases sm.width() - j,
    {
        if str_eq(&sm.names[j], n) {
            return Option::Some(j);
        }
        j = j + 1;
    }
    Option::None
}

/// Appends a new column: its name, its recorded type, and one cell per
/// existing row.  All existing columns keep their name, type and cells.
pub fn push_column(
    sm: SolutionMappings,
    name: String,
    typ: RDFNodeType,
    cells: Vec<Option<Term>>,
) -> (out: SolutionMappings)
    requires
        sm.wf(),
        !sm.has_col(name@),
        type_wf(typ),
        cells@.len() == sm.height(),
        forall|i: int| 0 <= i < sm.height() ==> cell_fits(#[trigger] cells@[i], typ),
    ensures
        out.names@ == sm.names@.push(name),
        out.types@ == sm.types@.push(typ),
        out.height() == sm.height(),
        forall|i: int| 0 <= i < sm.height() ==> out.rows@[i]@ == sm.rows@[i]@.push(cells@[i]),
        out.wf(),
        out.width() == sm.width() + 1,
        forall|n: Seq<char>| out.has_col(n) <==> (sm.has_col(n) || n == name@),
        out.has_col(name@),
        out.type_at(name@) == typ,
        forall|i: int| 0 <= i < sm.height() ==> out.cell_at(i, name@) == cells@[i],
        forall|n: Seq<char>|
            sm.has_col(n) ==> out.type_at(n) == sm.type_at(n) && out.col_index(n) == sm.col_index(
                n,
            ),
        forall|n: Seq<char>, i: int|
            sm.has_col(n) && 0 <= i < sm.height() ==> out.cell_at(i, n) == sm.cell_at(i, n),
{
    let SolutionMappings { mut names, mut types, rows } = sm;
    names.push(name);
    types.push(typ);
    let mut new_rows: Vec<Vec<Option<Term>>> = Vec::new();
    let mut i: usize = 0;
    while i < rows.len()
        invariant
            0 <= i <= rows@.len(),
            cells@.len() == rows@.len(),
            new_rows@.len() == i,
            forall|k: int| 0 <= k < i ==> new_rows@[k]@ == rows@[k]@.push(cells@[k]),
        decreases rows@.len() - i,
    {
        let mut nr = clone_row(&rows[i]);
        nr.push(crate::terms::clone_cell(&cells[i]));
        new_rows.push(nr);
        i = i + 1;
    }
    let out = SolutionMappings { names, types, rows: new_rows };
    proof {
        let w = sm.width();
        assert(out.names@ == sm.names@.push(name));
        assert(out.names@[w] == name);
        assert forall|a: int, b: int| 0 <= a < b < out.width() implies out.name(a) != out.name(
            b,
        ) by {
            assert(out.name(a) == sm.name(a));
            if b < w {
                assert(out.name(b) == sm.name(b));
            } else {
                assert(b == w);
                assert(out.name(b) == name@);
                assert(sm.has_col(sm.name(a)));
            }
        }
        assert forall|i: int, j: int|
            0 <= i < out.height() && 0 <= j < out.width() implies cell_fits(
            #[trigger] out.rows@[i]@[j],
            out.types@[j],
        ) by {
            if j < w {
                assert(out.rows@[i]@[j] == sm.rows@[i]@[j]);
            } else {
                assert(out.rows@[i]@[j] == cells@[i]);
            }
        }
        assert(out.wf());
        assert forall|n: Seq<char>| sm.has_col(n) implies out.has_col(n) && #[trigger] out.type_at(
            n,
        ) == sm.type_at(n) && out.col_index(n) == sm.col_index(n) by {
            sm.lemma_col_index(n);
            let j = sm.col_index(n);
            assert(out.name(j) == n);
            assert(out.has_col(n));
            out.lemma_col_index(n);
        }
        assert forall|n: Seq<char>, i: int|
            sm.has_col(n) && 0 <= i < sm.height() implies #[trigger] out.cell_at(i, n)
            == sm.cell_at(i, n) by {
            sm.lemma_col_index(n);
            let j = sm.col_index(n);
            assert(out.name(j) == n);
            assert(out.has_col(n));
            out.lemma_col_index(n);
        }
        assert(out.has_col(name@)) by {
            assert(out.name(w) == name@);
        }
        out.lemma_col_index(name@);
        assert(out.name(w) == name@);
        assert(out.col_index(name@) == w);
        assert forall|n: Seq<char>| out.has_col(n) implies (sm.has_col(n) || n == name@) by {
            out.lemma_col_index(n);
            let j = out.col_index(n);
            if j < w {
                assert(sm.name(j) == n);
            }
        }
        assert forall|n: Seq<char>| sm.has_col(n) implies out.has_col(n) by {
            sm.lemma_col_index(n);
            assert(out.name(sm.col_index(n)) == n);
        }
    }
    out
}

/// Removes column `j` from the schema and from every row.  All other
/// columns keep their name, type and cells.
pub fn remove_column(sm: SolutionMappings, j: usize) -> (out: SolutionMappings)
    requires
        sm.wf(),
        0 <= j < sm.width(),
    ensures
        out.names@ == sm.names@.remove(j as int),
        out.types@ == sm.types@.remove(j as int),
        out.height() == sm.height(),
        forall|i: int| 0 <= i < sm.height() ==> out.rows@[i]@ == sm.rows@[i]@.remove(j as int),
        out.wf(),
        out.width() == sm.width() - 1,
        forall|n: Seq<char>| out.has_col(n) <==> (sm.has_col(n) && n != sm.name(j as int)),
        forall|n: Seq<char>|
            out.has_col(n) ==> out.type_at(n) == sm.type_at(n),
        forall|n: Seq<char>, i: int|
            out.has_col(n) && 0 <= i < sm.height() ==> out.cell_at(i, n) == sm.cell_at(i, n),
        forall|n1: Seq<char>, n2: Seq<char>|
            out.has_col(n1) && out.has_col(n2) ==> ((out.col_index(n1) < out.col_index(n2)) <==> (
            sm.col_index(n1) < sm.col_index(n2))),
{
    let SolutionMappings { mut names, mut types, rows } = sm;
    names.remove(j);
    types.remove(j);
    let mut new_rows: Vec<Vec<Option<Term>>> = Vec::new();
    let mut i: usize = 0;
    while i < rows.len()
        invariant
            0 <= i <= rows@.len(),
            new_rows@.len() == i,
            forall|k: int| 0 <= k < rows@.len() ==> rows@[k]@.len() > j,
            forall|k: int| 0 <= k < i ==> new_rows@[k]@ == rows@[k]@.remove(j as int),
        decreases rows@.len() - i,
    {
        let mut nr = clone_row(&rows[i]);
        nr.remove(j);
        new_rows.push(nr);
        i = i + 1;
    }
    let out = SolutionMappings { names, types, rows: new_rows };
    proof {
        let jj = j as int;
        // index correspondence: position k of `out` is position f(k) of `sm`
        assert forall|k: int| 0 <= k < out.width() implies out.name(k) == sm.name(
            if k < jj {
                k
            } else {
                k + 1
            },
        ) && out.types@[k] == sm.types@[if k < jj {
            k
        } else {
            k + 1
        }] by {}
        assert forall|a: int, b: int| 0 <= a < b < out.width() implies out.name(a) != out.name(
            b,
        ) by {}
        assert forall|i: int, k: int|
            0 <= i < out.height() && 0 <= k < out.width() implies cell_fits(
            #[trigger] out.rows@[i]@[k],
            out.types@[k],
        ) by {
            if k < jj {
                assert(out.rows@[i]@[k] == sm.rows@[i]@[k]);
            } else {
                assert(out.rows@[i]@[k] == sm.rows@[i]@[k + 1]);
            }
        }
        assert(out.wf());
        assert forall|n: Seq<char>| sm.has_col(n) && n != sm.name(jj) implies out.has_col(n) by {
            sm.lemma_col_index(n);
            let k = sm.col_index(n);
            if k < jj {
                assert(out.name(k) == n);
            } else {
                assert(k > jj);
                assert(out.name(k - 1) == n);
            }
        }
        assert forall|n: Seq<char>| out.has_col(n) implies sm.has_col(n) && n != sm.name(jj) by {
            out.lemma_col_index(n);
            let k = out.col_index(n);
            if k < jj {
                assert(sm.name(k) == n);
            } else {
                assert(sm.name(k + 1) == n);
            }
        }
        assert forall|n: Seq<char>| out.has_col(n) implies #[trigger] out.type_at(n) == sm.type_at(
            n,
        ) && (forall|i: int|
            0 <= i < sm.height() ==> #[trigger] out.cell_at(i, n) == sm.cell_at(i, n)) && (
        out.col_index(n) < jj ==> sm.col_index(n) == out.col_index(n)) && (out.col_index(n) >= jj
            ==> sm.col_index(n) == out.col_index(n) + 1) by {
            out.lemma_col_index(n);
            sm.lemma_col_index(n);
            let k = out.col_index(n);
            if k < jj {
                assert(sm.name(k) == n);
                assert(sm.col_index(n) == k);
            } else {
                assert(sm.name(k + 1) == n);
                assert(sm.col_index(n) == k + 1);
            }
        }
    }
    out
}

/// Checks that a term is well formed.
pub fn term_wf_check(t: &Term) -> (r: bool)
    ensures
        r == term_wf(*t),
{
    match t {
        Term::Iri(_) => true,
        Term::Blank(_) => true,
        Term::Lit(dt, v) => {
            match v {
                LitValue::B(_) => literal_is_boolean(dt),
                LitValue::I(_) => literal_is_integer(dt),
                LitValue::F(_, d) => literal_is_float(dt) && *d > 0,
                LitValue::D(_) => literal_is_datetime(dt),
                LitValue::S(_) => !literal_is_boolean(dt) && !literal_is_integer(dt)
                    && !literal_is_float(dt) && !literal_is_datetime(dt),
            }
        },
    }
}

/// The concrete type of a term.
pub fn term_base(t: &Term) -> (b: BaseRDFNodeType)
    ensures
        b == base_of(*t),
{
    match t {
        Term::Iri(_) => BaseRDFNodeType::IRI,
        Term::Blank(_) => BaseRDFNodeType::BlankNode,
        Term::Lit(dt, _) => BaseRDFNodeType::Literal(dt.clone()),
    }
}

/// Whether the concrete type `b` is admitted by the recorded type `t`.
pub fn base_in_type_check(b: &BaseRDFNodeType, t: &RDFNodeType) -> (r: bool)
    ensures
        r == base_in_type(*b, *t),
{
    match t {
        RDFNodeType::IRI => matches!(b, BaseRDFNodeType::IRI),
        RDFNodeType::BlankNode => matches!(b, BaseRDFNodeType::BlankNode),
        RDFNodeType::Literal(dt) => {
            match b {
                BaseRDFNodeType::Literal(db) => str_eq(db, dt),
                _ => false,
            }
        },
        RDFNodeType::MultiType(v) => {
            let mut i: usize = 0;
            while i < v.len()
                invariant
                    0 <= i <= v@.len(),
                    *t == RDFNodeType::MultiType(*v),
                    forall|k: int| 0 <= k < i ==> !base_same(v@[k], *b),
                decreases v@.len() - i,
            {
                if base_eq(&v[i], b) {
                    return true;
                }
                i = i + 1;
            }
            false
        },
    }
}

/// Checks that a cell fits the recorded type of its column.
pub fn cell_fits_check(c: &Option<Term>, t: &RDFNodeType) -> (r: bool)
    ensures
        r == cell_fits(*c, *t),
{
    match c {
        Option::None => true,
        Option::Some(tm) => {
            if !term_wf_check(tm) {
                return false;
            }
            let b = term_base(tm);
            base_in_type_check(&b, t)
        },
    }
}

proof fn lemma_sorted_pair(s: Seq<BaseRDFNodeType>, i: int, j: int)
    requires
        forall|k: int| 0 <= k < s.len() - 1 ==> base_lt(#[trigger] s[k], s[k + 1]),
        0 <= i < j < s.len(),
    ensures
        base_lt(s[i], s[j]),
    decreases j - i,
{
    if j == i + 1 {
    } else {
        lemma_sorted_pair(s, i, j - 1);
        lemma_base_lt_transitive(s[i], s[j - 1], s[j]);
    }
}

/// Checks well-formedness of a recorded type.
pub fn type_wf_check(t: &RDFNodeType) -> (r: bool)
    ensures
        r == type_wf(*t),
{
    match t {
        RDFNodeType::MultiType(v) => {
            if v.len() < 2 {
                proof {
                    assert(!type_wf(*t));
                }
                return false;
            }
            let mut i: usize = 0;
            while i < v.len() - 1
                invariant
                    0 <= i <= v@.len() - 1,
                    v@.len() >= 2,
                    *t == RDFNodeType::MultiType(*v),
                    forall|k: int| 0 <= k < i ==> base_lt(#[trigger] v@[k], v@[k + 1]),
                decreases v@.len() - i,
            {
                if !base_less(&v[i], &v[i + 1]) {
                    proof {
                        assert(!base_seq_sorted(v@));
                    }
                    return false;
                }
                i = i + 1;
            }
            proof {
                assert forall|a: int, b: int| 0 <= a < b < v@.len() implies base_lt(
                    v@[a],
                    v@[b],
                ) by {
                    lemma_sorted_pair(v@, a, b);
                }
            }
            true
        },
        _ => true,
    }
}

impl SolutionMappings {
    /// Checks the whole well-formedness invariant.
    pub fn wf_check(&self) -> (r: bool)
        ensures
            r == self.wf(),
    {
        if self.types.len() != self.names.len() {
            return false;
        }
        let w: usize = self.names.len();
        // distinct names
        let mut i: usize = 0;
        while i < w
            invariant
                0 <= i <= w,
                w == self.width(),
                forall|a: int, b: int| 0 <= a < b < i ==> self.name(a) != self.name(b),
                forall|a: int, b: int| 0 <= a < i && a < b < w ==> self.name(a) != self.name(b),
            decreases w - i,
        {
            let mut j: usize = i + 1;
            while j < w
                invariant
                    0 <= i < j <= w,
                    w == self.width(),
                    forall|b: int| i < b < j ==> self.name(i as int) != self.name(b),
                decreases w - j,
            {
                if str_eq(&self.names[i], &self.names[j]) {
                    proof {
                        assert(self.name(i as int) == self.name(j as int));
                        assert(!self.names_distinct());
                    }
                    return false;
                }
                j = j + 1;
            }
            i = i + 1;
        }
        // types well-formed
        let mut j: usize = 0;
        while j < w
            invariant
                0 <= j <= w,
                w == self.width(),
                self.types@.len() == w,
                forall|k: int| 0 <= k < j ==> type_wf(#[trigger] self.types@[k]),
            decreases w - j,
        {
            if !type_wf_check(&self.types[j]) {
                return false;
            }
            j = j + 1;
        }
        // rows rectangular and cells fitting
        let mut r: usize = 0;
        while r < self.rows.len()
            invariant
                0 <= r <= self.height(),
                w == self.width(),
                self.types@.len() == w,
                forall|k: int| 0 <= k < r ==> self.rows@[k]@.len() == w,
                forall|k: int, c: int|
                    0 <= k < r && 0 <= c < w ==> cell_fits(
                        #[trigger] self.rows@[k]@[c],
                        self.types@[c],
                    ),
            decreases self.height() - r,
        {
            if self.rows[r].len() != w {
                return false;
            }
            let mut c: usize = 0;
            while c < w
                invariant
                    0 <= c <= w,
                    0 <= r < self.height(),
                    w == self.width(),
                    self.types@.len() == w,
                    self.rows@[r as int]@.len() == w,
                    forall|cc: int|
                        0 <= cc < c ==> cell_fits(
                            #[trigger] self.rows@[r as int]@[cc],
                            self.types@[cc],
                        ),
                decreases w - c,
            {
                if !cell_fits_check(&self.rows[r][c], &self.types[c]) {
                    return false;
                }
                c = c + 1;
            }
            r = r + 1;
        }
        true
    }

    /// Assembles a typed solution relation, rejecting ill-formed inputs.
    pub fn new(names: Vec<String>, types: Vec<RDFNodeType>, rows: Vec<Vec<Option<Term>>>) -> (res:
        Result<SolutionMappings, QueryProcessingError>)
        ensures
            match res {
                Result::Ok(sm) => sm == (SolutionMappings { names, types, rows }) && sm.wf(),
                Result::Err(e) => !(SolutionMappings { names, types, rows }).wf() && e matches
                    QueryProcessingError::InternalInvariantViolation(_),
            },
    {
        let sm = SolutionMappings { names, types, rows };
        if sm.wf_check() {
            Result::Ok(sm)
        } else {
            Result::Err(
                QueryProcessingError::InternalInvariantViolation(
                    String::from_str("solution mappings are not well formed"),
                ),
            )
        }
    }
}

} // verus!
