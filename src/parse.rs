//! Reading an edge list from the lines of its text form.
use crate::graph::{Edge, GraphError};
use vstd::prelude::*;

verus! {

/// Field separators within a line: space, tab, carriage return.
pub open spec fn is_blank(b: u8) -> bool {
    b == 32 || b == 9 || b == 13
}

pub open spec fn is_digit(b: u8) -> bool {
    48 <= b <= 57
}

/// Reads `line` from index `i` on, with `cur` the value of the number being read (if any)
/// and `acc` the numbers already complete.  Numbers are runs of decimal digits separated by
/// blanks; any other byte, or a number above `u64::MAX`, makes the line malformed (`None`).
pub open spec fn scan(line: Seq<u8>, i: int, cur: Option<u64>, acc: Seq<u64>) -> Option<Seq<u64>>
    decreases line.len() - i,
{
    if i >= line.len() {
        match cur {
            Some(v) => Some(acc.push(v)),
            None => Some(acc),
        }
    } else if is_blank(line[i]) {
        match cur {
            Some(v) => scan(line, i + 1, None, acc.push(v)),
            None => scan(line, i + 1, None, acc),
        }
    } else if is_digit(line[i]) {
        let d = line[i] - 48;
        let v: int = match cur {
            Some(c) => c * 10 + d,
            None => d,
        };
        if v > u64::MAX {
            None
        } else {
            scan(line, i + 1, Some(v as u64), acc)
        }
    } else {
        None
    }
}

/// The numbers of a line, or `None` where it holds anything but blanks and numbers that fit
/// in a `u64`.
pub open spec fn fields_of(line: Seq<u8>) -> Option<Seq<u64>> {
    scan(line, 0, None, seq![])
}

/// The edge that a line of three numbers describes.
pub open spec fn edge_row(line: Seq<u8>) -> Option<Edge> {
    match fields_of(line) {
        Some(f) => if f.len() == 3 && f[0] <= usize::MAX && f[1] <= usize::MAX {
            Some((f[0] as usize, f[1] as usize, f[2]))
        } else {
            None
        },
        None => None,
    }
}

/// The edge count that a header line announces: one number `N >= 1`, for `N - 1` edges.
pub open spec fn header_of(line: Seq<u8>) -> Option<u64> {
    match fields_of(line) {
        Some(f) => if f.len() == 1 && f[0] >= 1 {
            Some(f[0])
        } else {
            None
        },
        None => None,
    }
}

/// The input is a header announcing `N` followed by at least `N - 1` edge lines, each
/// well-formed; `edges` are those lines' edges.
pub open spec fn input_edges(lines: Seq<Seq<u8>>, edges: Seq<Edge>) -> bool {
    &&& lines.len() >= 1
    &&& header_of(lines[0]) is Some
    &&& lines.len() >= header_of(lines[0])->0
    &&& edges.len() == header_of(lines[0])->0 - 1
    &&& forall|k: int| 0 <= k < edges.len() ==> edge_row(#[trigger] lines[k + 1]) == Some(edges[k])
}

/// The input is well-formed: a header and as many well-formed edge lines as it announces.
pub open spec fn input_ok(lines: Seq<Seq<u8>>) -> bool {
    &&& lines.len() >= 1
    &&& header_of(lines[0]) is Some
    &&& lines.len() >= header_of(lines[0])->0
    &&& forall|k: int|
        1 <= k < header_of(lines[0])->0 ==> #[trigger] edge_row(lines[k]) is Some
}

/// The numbers of one line.  Fails with `MalformedEdge` where the line holds anything but
/// blanks and decimal numbers that fit in a `u64`.
pub fn read_vec(line: &Vec<u8>) -> (r: Result<Vec<u64>, GraphError>)
    ensures
        match r {
            Ok(v) => fields_of(line@) == Some(v@),
            Err(e) => e == GraphError::MalformedEdge && fields_of(line@) is None,
        },
{
    let mut acc: Vec<u64> = Vec::new();
    let mut cur: Option<u64> = None;
    let mut i: usize = 0;
    while i < line.len()
        invariant
            i <= line@.len(),
            scan(line@, i as int, cur, acc@) == fields_of(line@),
        decreases line@.len() - i,
    {
        let b = line[i];
        if b == 32 || b == 9 || b == 13 {
            if let Some(v) = cur {
                acc.push(v);
            }
            cur = None;
        } else if 48 <= b && b <= 57 {
            let d = (b - 48) as u64;
            let next = match cur {
                Some(c) => {
                    match c.checked_mul(10) {
                        Some(c10) => c10.checked_add(d),
                        None => None,
                    }
                },
                None => Some(d),
            };
            match next {
                Some(v) => {
                    cur = Some(v);
                },
                None => {
                    return Err(GraphError::MalformedEdge);
                },
            }
        } else {
            return Err(GraphError::MalformedEdge);
        }
        i = i + 1;
    }
    if let Some(v) = cur {
        acc.push(v);
    }
    Ok(acc)
}

/// The numbers of each line, in order.  Fails with `MalformedEdge` where any line is
/// malformed.
pub fn read_vec2(lines: &Vec<Vec<u8>>) -> (r: Result<Vec<Vec<u64>>, GraphError>)
    ensures
        match r {
            Ok(rows) => rows@.len() == lines@.len() && forall|k: int|
                0 <= k < lines@.len() ==> fields_of(#[trigger] lines@[k]@) == Some(rows@[k]@),
            Err(e) => e == GraphError::MalformedEdge && exists|k: int|
                0 <= k < lines@.len() && fields_of(#[trigger] lines@[k]@) is None,
        },
{
    let mut rows: Vec<Vec<u64>> = Vec::new();
    let mut k: usize = 0;
    while k < lines.len()
        invariant
            k <= lines@.len(),
            rows@.len() == k,
            forall|j: int| 0 <= j < k ==> fields_of(#[trigger] lines@[j]@) == Some(rows@[j]@),
        decreases lines@.len() - k,
    {
        match read_vec(&lines[k]) {
            Ok(row) => {
                rows.push(row);
            },
            Err(e) => {
                assert(fields_of(lines@[k as int]@) is None);
                return Err(e);
            },
        }
        k = k + 1;
    }
    Ok(rows)
}

/// The edge list of an input: a header line holding `N`, then `N - 1` lines of
/// `node node weight`; lines after those are not read.  Fails with `MalformedEdge` where the
/// header or one of those lines is malformed or missing.
pub fn read_map(lines: &Vec<Vec<u8>>) -> (r: Result<Vec<Edge>, GraphError>)
    ensures
        match r {
            Ok(edges) => input_edges(lines@.map_values(|l: Vec<u8>| l@), edges@),
            Err(e) => e == GraphError::MalformedEdge && !input_ok(
                lines@.map_values(|l: Vec<u8>| l@),
            ),
        },
{
    let ghost ls = lines@.map_values(|l: Vec<u8>| l@);
    if lines.len() == 0 {
        return Err(GraphError::MalformedEdge);
    }
    assert(ls[0] == lines@[0]@);
    let header = read_vec(&lines[0])?;
    if header.len() != 1 || header[0] < 1 {
        return Err(GraphError::MalformedEdge);
    }
    let h = header[0];
    if (lines.len() as u64) < h {
        return Err(GraphError::MalformedEdge);
    }
    let mut edges: Vec<Edge> = Vec::new();
    let mut k: usize = 1;
    while (k as u64) < h
        invariant
            1 <= k <= h,
            h <= lines.len(),
            ls == lines@.map_values(|l: Vec<u8>| l@),
            header_of(ls[0]) == Some(h),
            edges@.len() == k - 1,
            forall|j: int| 0 <= j < edges@.len() ==> edge_row(#[trigger] ls[j + 1]) == Some(edges@[j]),
        decreases h - k,
    {
        assert(ls[k as int] == lines@[k as int]@);
        let row = read_vec(&lines[k])?;
        if row.len() != 3 || row[0] > usize::MAX as u64 || row[1] > usize::MAX as u64 {
            assert(edge_row(ls[k as int]) is None);
            return Err(GraphError::MalformedEdge);
        }
        edges.push((row[0] as usize, row[1] as usize, row[2]));
        k = k + 1;
        proof {
            assert forall|j: int| 0 <= j < edges@.len() implies edge_row(#[trigger] ls[j + 1]) == Some(edges@[j]) by {
                if j < edges@.len() - 1 {
                } else {
                    assert(j + 1 == k - 1);
                }
            }
        }
    }
    Ok(edges)
}

} // verus!
