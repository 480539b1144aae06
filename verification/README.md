# sorted_set

Ordered containers kept in a list of buckets instead of a balanced tree,
written in Verus and verified against their contracts.

- `SortedSet<T>` / `SortedMultiset<T>` (both `SortedCollection<T, MULTI>`):
  values of a `T: Ord` in ascending order, without or with duplicates.
- `BucketList<T>`: a sequence in insertion order, with `O(B)` indexed access.

Indices are `isize`; negative ones count from the end. Missing values and
out-of-range indices give `None` (or `Err` for `BucketList::insert`).

Layout of `src/`:

| module | contents |
| --- | --- |
| `bucket_list` | `BucketList`, its buckets and their joined view |
| `sorted` | `SortedCollection` and the `SortedSet` / `SortedMultiset` names |
| `sorted_vec` | binary searches, order check, sorting and deduplication of a vector |
| `order` | the total order the sorted containers rely on |
| `rank` | sorted sequences, counts below / not above a value, `add` as a spec |
| `pieces` | a sequence cut into pieces and joined back |
| `counting` | counting and searching a sequence by a predicate |
| `layout` | the bucket layout a list is built with |
| `laws` | properties relating several operations |

Lists and collections are built from a `Vec` with `from_vec` and grown with
`extend(Vec)`; `iter()` returns the items as a `Vec` of references in order
(`iter().into_iter().rev()` walks them backwards).
