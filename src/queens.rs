use vstd::prelude::*;

verus! {

/// An eight-by-eight board: bit `j` of row `i` is set when a queen may stand
/// in column `j` of that row.
#[derive(Debug, Clone, Copy)]
pub struct QueensState {
    pub d: [u8; 8],
}

/// The row value that holds a queen in column `i` alone.
pub open spec fn queen_bit(i: int) -> u8 {
    (1u8 << (i as u8)) as u8
}

/// The column of the one queen in row value `v`, if it holds exactly one.
pub open spec fn queen_col(v: u8) -> Option<int> {
    if exists|i: int| 0 <= i < 8 && v == #[trigger] queen_bit(i) {
        Some(choose|i: int| 0 <= i < 8 && v == #[trigger] queen_bit(i))
    } else {
        None
    }
}

/// Some row holds more than one queen.
pub open spec fn two_queens_in_a_row(d: Seq<u8>) -> bool {
    exists|y: int| 0 <= y < d.len() && d[y] != 0 && #[trigger] queen_col(d[y]) is None
}

/// The columns of the rows below `n` that hold exactly one queen, in row
/// order.
pub open spec fn queen_cols(d: Seq<u8>, n: int) -> Seq<i32>
    decreases n,
{
    if n <= 0 {
        Seq::empty()
    } else {
        match queen_col(d[n - 1]) {
            Some(x) => queen_cols(d, n - 1).push(x as i32),
            None => queen_cols(d, n - 1),
        }
    }
}

/// No row holds two queens, and no two single queens share a column or a
/// diagonal.
pub open spec fn valid_board(d: Seq<u8>) -> bool {
    &&& !two_queens_in_a_row(d)
    &&& forall|y1: int, y2: int|
        0 <= y1 < y2 < 8 && #[trigger] queen_col(d[y1]) is Some && #[trigger] queen_col(d[y2]) is Some ==> {
            let x1 = queen_col(d[y1])->0;
            let x2 = queen_col(d[y2])->0;
            x1 != x2 && (x1 - x2 != y2 - y1) && (x2 - x1 != y2 - y1)
        }
}

/// Row `i` is the first that is neither empty nor a single queen.
pub open spec fn first_open_row(d: Seq<u8>, i: int) -> bool {
    &&& 0 <= i < 8
    &&& d[i] != 0
    &&& queen_col(d[i]) is None
    &&& forall|k: int| 0 <= k < i ==> d[k] == 0 || #[trigger] queen_col(d[k]) is Some
}

/// The columns below `n` whose bit is set in `row`, ascending.
pub open spec fn set_columns(row: u8, n: int) -> Seq<int>
    decreases n,
{
    if n <= 0 {
        Seq::empty()
    } else if row & queen_bit(n - 1) != 0 {
        set_columns(row, n - 1).push(n - 1)
    } else {
        set_columns(row, n - 1)
    }
}

/// Board `d` with row `i` holding its queen in column `j` and that column
/// cleared from the rows after it.
pub open spec fn place(d: Seq<u8>, i: int, j: int) -> Seq<u8> {
    Seq::new(
        8,
        |k: int|
            if k == i {
                queen_bit(j)
            } else if k > i {
                d[k] & !queen_bit(j)
            } else {
                d[k]
            },
    )
}

proof fn lemma_queen_bit_unique(i: int, j: int)
    requires
        0 <= i < 8,
        0 <= j < 8,
        queen_bit(i) == queen_bit(j),
    ensures
        i == j,
{
    let a = i as u8;
    let b = j as u8;
    assert(a < 8 && b < 8 && (1u8 << a) == (1u8 << b) ==> a == b) by (bit_vector);
}

impl QueensState {
    pub fn init() -> (r: Self)
        ensures
            forall|i: int| 0 <= i < 8 ==> #[trigger] r.d[i] == 255,
    {
        QueensState { d: [255u8;8] }
    }

    /// The column of the single queen in `value`, or `None` when it holds
    /// none or several.
    pub fn contains_only_one_queen(value: u8) -> (r: Option<i32>)
        ensures
            r == match queen_col(value) {
                Some(x) => Some(x as i32),
                None => None::<i32>,
            },
    {
        let mut i: u8 = 0;
        while i < 8
            invariant
                i <= 8,
                forall|k: int| 0 <= k < i ==> value != #[trigger] queen_bit(k),
            decreases 8 - i,
        {
            if value == 1u8 << i {
                proof {
                    assert(value == queen_bit(i as int));
                    let c = choose|c: int| 0 <= c < 8 && value == #[trigger] queen_bit(c);
                    lemma_queen_bit_unique(c, i as int);
                }
                return Some(i as i32);
            }
            i += 1;
        }
        None
    }

    /// The columns of the rows that hold exactly one queen, in row order.
    pub fn rows_with_one_queen(&self) -> (r: Vec<i32>)
        ensures
            r@ == queen_cols(self.d@, 8),
    {
        let mut r: Vec<i32> = Vec::new();
        let mut y: usize = 0;
        while y < 8
            invariant
                y <= 8,
                r@ == queen_cols(self.d@, y as int),
            decreases 8 - y,
        {
            let j = Self::contains_only_one_queen(self.d[y]);
            if j.is_some() {
                r.push(j.unwrap());
            }
            y += 1;
        }
        r
    }

    /// Some row holds more than one queen.
    pub fn has_two_queens_in_any_row(&self) -> (r: bool)
        ensures
            r == two_queens_in_a_row(self.d@),
    {
        let mut y: usize = 0;
        while y < 8
            invariant
                y <= 8,
                forall|k: int| 0 <= k < y ==> self.d@[k] == 0 || #[trigger] queen_col(self.d@[k]) is Some,
            decreases 8 - y,
        {
            if self.d[y] != 0 && Self::contains_only_one_queen(self.d[y]).is_none() {
                return true;
            }
            y += 1;
        }
        false
    }

    /// No row holds two queens and no two single queens attack each other.
    pub fn is_valid(&self) -> (r: bool)
        ensures
            r == valid_board(self.d@),
    {
        if self.has_two_queens_in_any_row() {
            return false;
        }
        let mut y1: usize = 0;
        while y1 < 7
            invariant
                y1 <= 7,
                !two_queens_in_a_row(self.d@),
                forall|a: int, b: int|
                    0 <= a < y1 && a < b < 8 && #[trigger] queen_col(self.d@[a]) is Some
                        && #[trigger] queen_col(self.d@[b]) is Some ==> {
                        let x1 = queen_col(self.d@[a])->0;
                        let x2 = queen_col(self.d@[b])->0;
                        x1 != x2 && (x1 - x2 != b - a) && (x2 - x1 != b - a)
                    },
            decreases 7 - y1,
        {
            let mut y2: usize = y1 + 1;
            while y2 < 8
                invariant
                    y1 < 7,
                    y1 < y2 <= 8,
                    !two_queens_in_a_row(self.d@),
                    forall|a: int, b: int|
                        0 <= a < y1 && a < b < 8 && #[trigger] queen_col(self.d@[a]) is Some
                            && #[trigger] queen_col(self.d@[b]) is Some ==> {
                            let x1 = queen_col(self.d@[a])->0;
                            let x2 = queen_col(self.d@[b])->0;
                            x1 != x2 && (x1 - x2 != b - a) && (x2 - x1 != b - a)
                        },
                    forall|b: int|
                        y1 < b < y2 && #[trigger] queen_col(self.d@[y1 as int]) is Some
                            && #[trigger] queen_col(self.d@[b]) is Some ==> {
                            let x1 = queen_col(self.d@[y1 as int])->0;
                            let x2 = queen_col(self.d@[b])->0;
                            x1 != x2 && (x1 - x2 != b - y1) && (x2 - x1 != b - y1)
                        },
                decreases 8 - y2,
            {
                let q1 = Self::contains_only_one_queen(self.d[y1]);
                let q2 = Self::contains_only_one_queen(self.d[y2]);
                if q1.is_some() && q2.is_some() {
                    let delta_y = (y2 - y1) as i32;
                    let x1 = q1.unwrap();
                    let x2 = q2.unwrap();
                    let delta_x = if x1 > x2 {
                        x1 - x2
                    } else {
                        x2 - x1
                    };
                    if delta_x == 0 || delta_x == delta_y {
                        return false;
                    }
                }
                y2 += 1;
            }
            y1 += 1;
        }
        true
    }

    /// One child per queen still possible in the first row that is neither
    /// empty nor decided, in column order, each placing that queen and
    /// clearing its column from the rows after it; none when there is no
    /// such row.
    pub fn split(&self) -> (r: Vec<QueensState>)
        ensures
            (forall|i: int| !#[trigger] first_open_row(self.d@, i)) ==> r.len() == 0,
            forall|i: int| #[trigger] first_open_row(self.d@, i) ==> {
                &&& r.len() == set_columns(self.d@[i], 8).len()
                &&& forall|m: int| 0 <= m < r.len() ==> #[trigger] r[m].d@ == place(self.d@, i, set_columns(self.d@[i], 8)[m])
            },
    {
        let mut result: Vec<QueensState> = Vec::new();
        let mut i: usize = 0;
        while i < 8
            invariant
                i <= 8,
                result.len() == 0,
                forall|k: int| 0 <= k < i ==> self.d@[k] == 0 || #[trigger] queen_col(self.d@[k]) is Some,
            decreases 8 - i,
        {
            let row = self.d[i];
            if row != 0 && Self::contains_only_one_queen(row).is_none() {
                assert(first_open_row(self.d@, i as int));
                let mut j: u8 = 0;
                while j < 8
                    invariant
                        j <= 8,
                        i < 8,
                        row == self.d@[i as int],
                        result.len() == set_columns(row, j as int).len(),
                        forall|m: int| 0 <= m < result.len() ==> #[trigger] result[m].d@ == place(self.d@, i as int, set_columns(row, j as int)[m]),
                    decreases 8 - j,
                {
                    let ghost before = result@;
                    if row & (1u8 << j) != 0 {
                        let mut s = *self;
                        let bit: u8 = 1u8 << j;
                        s.d[i] = bit;
                        let mut k: usize = i + 1;
                        while k < 8
                            invariant
                                i < k <= 8,
                                j < 8,
                                bit == queen_bit(j as int),
                                forall|t: int| 0 <= t < 8 ==> #[trigger] s.d@[t] == if t == i {
                                    bit
                                } else if i < t < k {
                                    self.d@[t] & !bit
                                } else {
                                    self.d@[t]
                                },
                            decreases 8 - k,
                        {
                            let v = s.d[k] & !bit;
                            s.d[k] = v;
                            k += 1;
                        }
                        assert(s.d@ =~= place(self.d@, i as int, j as int));
                        result.push(s);
                        assert(set_columns(row, j + 1) == set_columns(row, j as int).push(j as int));
                        assert forall|m: int| 0 <= m < result.len() implies #[trigger] result[m].d@ == place(self.d@, i as int, set_columns(row, j + 1)[m]) by {
                            if m < before.len() {
                                assert(result[m] == before[m]);
                            }
                        }
                    } else {
                        assert(set_columns(row, j + 1) == set_columns(row, j as int));
                    }
                    j += 1;
                }
                proof {
                    assert forall|q: int| #[trigger] first_open_row(self.d@, q) implies q == i by {
                        if q < i {
                        } else if i < q {
                            assert(self.d@[i as int] == 0 || queen_col(self.d@[i as int]) is Some);
                        }
                    }
                }
                return result;
            }
            i += 1;
        }
        result
    }
}

} // verus!
