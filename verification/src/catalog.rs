//! The recommendation graph of a catalog: every record a node, and an edge
//! of weight one between the records that an edge rule links.

use crate::graph::{with_edge, Edge, Recommender};
use crate::model::{Product, ProductId};
use vstd::prelude::*;

verus! {

/// The bit pattern of the weight one, which every edge of a graph built
/// from the catalog gets.
pub const UNIT_WEIGHT: u32 = 0x3f80_0000;

/// The largest catalog that a recommendation graph is built from: the graph
/// counts nodes and edges in 32 bits, and a catalog of this size has fewer
/// pairs of records than that.
pub const MAX_CATALOG: usize = 65535;

/// The identifiers of the records of a catalog.
pub open spec fn record_ids(products: Seq<Product>) -> Set<ProductId> {
    products.map_values(|p: Product| p.id).to_set()
}

/// Whether `rule` can be asked about every two records of `products`.
pub open spec fn is_rule_for<F: Fn(&Product, &Product) -> bool>(
    rule: F,
    products: Seq<Product>,
) -> bool {
    forall|i: int, j: int|
        #![trigger products[i], products[j]]
        0 <= i < products.len() && 0 <= j < products.len() ==> call_requires(
            rule,
            (&products[i], &products[j]),
        )
}

/// Whether `table` holds, for every ordered pair of records, whether the
/// pair is linked: `table[i][j]` says that the records at `i` and `j` have
/// different identifiers and that `rule`, asked about the two, answered yes.
pub open spec fn decided_by<F: Fn(&Product, &Product) -> bool>(
    rule: F,
    products: Seq<Product>,
    table: Seq<Seq<bool>>,
) -> bool {
    &&& table.len() == products.len()
    &&& forall|i: int| 0 <= i < table.len() ==> (#[trigger] table[i]).len() == products.len()
    &&& forall|i: int, j: int|
        #![trigger table[i][j]]
        0 <= i < products.len() && 0 <= j < products.len() ==> if table[i][j] {
            products[i].id != products[j].id && call_ensures(
                rule,
                (&products[i], &products[j]),
                true,
            )
        } else {
            products[i].id == products[j].id || call_ensures(
                rule,
                (&products[i], &products[j]),
                false,
            )
        }
}

/// `start` after the record at `i` has been held against the first records
/// of the catalog, as many as `row` is long: the weight between it and each
/// record that `row` links it to is set to one.
pub open spec fn link_row(products: Seq<Product>, row: Seq<bool>, start: Seq<Edge>, i: int) -> Seq<
    Edge,
>
    decreases row.len(),
{
    if row.len() == 0 {
        start
    } else {
        let prev = link_row(products, row.drop_last(), start, i);
        if row.last() {
            with_edge(prev, products[i].id, products[row.len() - 1].id, UNIT_WEIGHT)
        } else {
            prev
        }
    }
}

/// The edges after each of the first records of the catalog, as many as
/// `table` has rows, has been held against the records that its row covers.
pub open spec fn link_rows(products: Seq<Product>, table: Seq<Seq<bool>>) -> Seq<Edge>
    decreases table.len(),
{
    if table.len() == 0 {
        Seq::empty()
    } else {
        link_row(
            products,
            table.last(),
            link_rows(products, table.drop_last()),
            table.len() - 1,
        )
    }
}

/// Whether two records are different records of the same category.
/// Categories are compared as they are written.
pub open spec fn related(a: Product, b: Product) -> bool {
    a.id != b.id && a.category@ == b.category@
}

/// The table that links the different records of one category.
pub open spec fn category_table(products: Seq<Product>) -> Seq<Seq<bool>> {
    Seq::new(
        products.len(),
        |i: int| Seq::new(products.len(), |j: int| related(products[i], products[j])),
    )
}

/// The edge rule that links the records of one category.
pub fn same_category(a: &Product, b: &Product) -> (linked: bool)
    ensures
        linked == (a.category@ == b.category@),
{
    a.category == b.category
}

/// The recommendation graph of a catalog under an edge rule.
///
/// Every record is registered as a node.  Then every ordered pair of records
/// with different identifiers about which the rule says yes, in the order of
/// the catalog, sets the weight between the two to one.  The rule is asked
/// once about each such pair; the edges are those of the table of its
/// answers.  The catalog is held pair by pair, so it has to be small enough
/// for the pairs to be counted in 32 bits.
pub fn build_recommendation_graph<F: Fn(&Product, &Product) -> bool>(
    products: &Vec<Product>,
    rule: F,
) -> (rec: Recommender)
    requires
        products.len() <= MAX_CATALOG,
        is_rule_for(rule, products@),
    ensures
        rec.wf(),
        rec.nodes() == record_ids(products@),
        exists|table: Seq<Seq<bool>>| #[trigger]
            decided_by(rule, products@, table) && rec.edges() == link_rows(products@, table),
{
    let n = products.len();
    let ghost ids = products@.map_values(|p: Product| p.id);
    let mut rec = Recommender::new();
    let mut i: usize = 0;
    proof {
        assert(n * n < u32::MAX) by (nonlinear_arith)
            requires
                0 <= n <= 65535,
        ;
        assert(ids.take(0).to_set() =~= Set::<ProductId>::empty());
    }
    while i < n
        invariant
            i <= n,
            n == products.len(),
            n < u32::MAX,
            ids == products@.map_values(|p: Product| p.id),
            rec.wf(),
            rec.nodes() == ids.take(i as int).to_set(),
            rec.nodes().len() <= i,
            rec.edges() == Seq::<Edge>::empty(),
        decreases n - i,
    {
        proof {
            assert(ids.take(i + 1) =~= ids.take(i as int).push(products@[i as int].id));
            ids.take(i as int).lemma_push_to_set_commute(products@[i as int].id);
        }
        rec.add_node(products[i].id);
        i += 1;
    }
    proof {
        assert(ids.take(n as int) =~= ids);
    }
    let ghost mut table: Seq<Seq<bool>> = Seq::empty();
    let mut i: usize = 0;
    while i < n
        invariant
            i <= n,
            n == products.len(),
            n * n < u32::MAX,
            is_rule_for(rule, products@),
            ids == products@.map_values(|p: Product| p.id),
            rec.wf(),
            rec.nodes() == record_ids(products@),
            table.len() == i,
            forall|x: int| 0 <= x < i ==> (#[trigger] table[x]).len() == n,
            forall|x: int, y: int|
                #![trigger table[x][y]]
                0 <= x < i && 0 <= y < n ==> if table[x][y] {
                    products@[x].id != products@[y].id && call_ensures(
                        rule,
                        (&products@[x], &products@[y]),
                        true,
                    )
                } else {
                    products@[x].id == products@[y].id || call_ensures(
                        rule,
                        (&products@[x], &products@[y]),
                        false,
                    )
                },
            rec.edges() == link_rows(products@, table),
            rec.edges().len() <= i * n,
        decreases n - i,
    {
        let ghost mut row: Seq<bool> = Seq::empty();
        let ghost done = link_rows(products@, table);
        let mut j: usize = 0;
        while j < n
            invariant
                i < n,
                j <= n,
                n == products.len(),
                n * n < u32::MAX,
                is_rule_for(rule, products@),
                ids == products@.map_values(|p: Product| p.id),
                rec.wf(),
                rec.nodes() == record_ids(products@),
                row.len() == j,
                forall|y: int|
                    #![trigger row[y]]
                    0 <= y < j ==> if row[y] {
                        products@[i as int].id != products@[y].id && call_ensures(
                            rule,
                            (&products@[i as int], &products@[y]),
                            true,
                        )
                    } else {
                        products@[i as int].id == products@[y].id || call_ensures(
                            rule,
                            (&products@[i as int], &products@[y]),
                            false,
                        )
                    },
                rec.edges() == link_row(products@, row, done, i as int),
                rec.edges().len() <= i * n + j,
            decreases n - j,
        {
            let a = &products[i];
            let b = &products[j];
            proof {
                assert(call_requires(rule, (&products@[i as int], &products@[j as int])));
            }
            let linked = a.id != b.id && rule(a, b);
            proof {
                let before = row;
                row = row.push(linked);
                assert(row.drop_last() =~= before);
            }
            if linked {
                proof {
                    assert(i * n + j < n * n) by (nonlinear_arith)
                        requires
                            0 <= i < n,
                            0 <= j < n,
                    ;
                    assert(ids[i as int] == a.id && ids[j as int] == b.id);
                    assert(ids.contains(a.id) && ids.contains(b.id));
                }
                rec.add_edge(a.id, b.id, UNIT_WEIGHT);
            }
            j += 1;
        }
        proof {
            assert(i * n + n == (i + 1) * n) by (nonlinear_arith);
            let before = table;
            table = table.push(row);
            assert(table.drop_last() =~= before);
        }
        i += 1;
    }
    proof {
        assert(decided_by(rule, products@, table));
    }
    rec
}

/// The recommendation graph of a catalog under the rule `same_category`:
/// every record is a node, and every ordered pair of different records of
/// one category, in the order of the catalog, sets the weight between the
/// two to one.
pub fn build_category_graph(products: &Vec<Product>) -> (rec: Recommender)
    requires
        products.len() <= MAX_CATALOG,
    ensures
        rec.wf(),
        rec.nodes() == record_ids(products@),
        rec.edges() == link_rows(products@, category_table(products@)),
{
    let rec = build_recommendation_graph(products, same_category);
    proof {
        let table = choose|table: Seq<Seq<bool>>| #[trigger]
            decided_by(same_category, products@, table) && rec.edges() == link_rows(
                products@,
                table,
            );
        lemma_category_table_is_decided(products@, table);
    }
    rec
}

/// The only table that the rule `same_category` decides is the table of the
/// categories.
pub proof fn lemma_category_table_is_decided(products: Seq<Product>, table: Seq<Seq<bool>>)
    requires
        decided_by(same_category, products, table),
    ensures
        table == category_table(products),
{
    let want = category_table(products);
    assert forall|i: int| 0 <= i < table.len() implies #[trigger] table[i] == want[i] by {
        assert forall|j: int| 0 <= j < table[i].len() implies #[trigger] table[i][j]
            == want[i][j] by {
            if table[i][j] {
                assert(call_ensures(same_category, (&products[i], &products[j]), true));
            } else if products[i].id != products[j].id {
                assert(call_ensures(same_category, (&products[i], &products[j]), false));
            }
        }
        assert(table[i] =~= want[i]);
    }
    assert(table =~= want);
}

} // verus!
