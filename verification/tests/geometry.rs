use raycaster::geometry::{closest_hits, compute_object_intersections, Hit, ScaledNormal};

fn hit(t: i64, tag: i64) -> Hit {
    Hit { t, surface_normal: ScaledNormal { x: tag, y: 0, z: 0 } }
}

#[test]
fn intersections_are_listed_ray_by_ray() {
    let rays: Vec<i64> = vec![1, 2];
    let objects: Vec<i64> = vec![10, 20, 30];
    let hits = compute_object_intersections(&rays, &objects, |o: &i64, r: &i64| Some(hit(*o + *r, 0)));
    let ts: Vec<i64> = hits.iter().map(|h| h.unwrap().t).collect();
    assert_eq!(ts, vec![11, 21, 31, 12, 22, 32]);
}

#[test]
fn intersections_keep_misses_in_place() {
    let rays: Vec<i64> = vec![0, 1, 2, 3];
    let objects: Vec<i64> = vec![2, 3];
    let hits = compute_object_intersections(&rays, &objects, |o: &i64, r: &i64| {
        if *r % *o == 0 {
            Some(hit(*r, *o))
        } else {
            None
        }
    });
    assert_eq!(
        hits,
        vec![Some(hit(0, 2)), Some(hit(0, 3)), None, None, Some(hit(2, 2)), None, None, Some(hit(3, 3))]
    );
}

#[test]
fn intersections_of_nothing() {
    let no_rays: Vec<i64> = vec![];
    let no_objects: Vec<i64> = vec![];
    let some: Vec<i64> = vec![1, 2, 3];
    assert_eq!(compute_object_intersections(&no_rays, &some, |_o: &i64, _r: &i64| Some(hit(1, 1))), vec![]);
    assert_eq!(compute_object_intersections(&some, &no_objects, |_o: &i64, _r: &i64| Some(hit(1, 1))), vec![]);
}

#[test]
fn closest_hit_has_the_least_t() {
    let hits = vec![Some(hit(5, 0)), Some(hit(3, 1)), None, Some(hit(9, 0)), Some(hit(10, 1)), Some(hit(1, 2))];
    assert_eq!(closest_hits(&hits, 2, 3), Some(vec![Some(hit(3, 1)), Some(hit(1, 2))]));
}

#[test]
fn closest_hit_among_equals_is_the_first_object() {
    let hits = vec![Some(hit(7, 0)), Some(hit(4, 1)), Some(hit(4, 2)), Some(hit(4, 3))];
    assert_eq!(closest_hits(&hits, 1, 4), Some(vec![Some(hit(4, 1))]));
}

#[test]
fn hits_behind_the_camera_do_not_count() {
    let hits = vec![Some(hit(-1, 0)), Some(hit(4, 1)), Some(hit(-9, 0)), Some(hit(-2, 1))];
    assert_eq!(closest_hits(&hits, 2, 2), Some(vec![Some(hit(4, 1)), None]));
}

#[test]
fn a_hit_at_the_origin_counts() {
    let hits = vec![Some(hit(3, 0)), Some(hit(0, 1))];
    assert_eq!(closest_hits(&hits, 1, 2), Some(vec![Some(hit(0, 1))]));
}

#[test]
fn a_ray_without_hits_has_no_closest_hit() {
    let hits: Vec<Option<Hit>> = vec![None, None, None, Some(hit(2, 0))];
    assert_eq!(closest_hits(&hits, 2, 2), Some(vec![None, Some(hit(2, 0))]));
}

#[test]
fn one_object_per_ray_keeps_the_hits_in_front() {
    let hits = vec![Some(hit(2, 0)), None, Some(hit(-2, 0)), Some(hit(0, 0))];
    assert_eq!(closest_hits(&hits, 4, 1), Some(vec![Some(hit(2, 0)), None, None, Some(hit(0, 0))]));
}

#[test]
fn an_empty_scene_has_no_hits() {
    let hits: Vec<Option<Hit>> = vec![];
    assert_eq!(closest_hits(&hits, 3, 0), Some(vec![None, None, None]));
    assert_eq!(closest_hits(&hits, 0, 5), Some(vec![]));
    assert_eq!(closest_hits(&hits, 0, 0), Some(vec![]));
}

#[test]
fn a_list_of_the_wrong_length_is_refused() {
    let hits = vec![Some(hit(1, 0)), None, None];
    assert_eq!(closest_hits(&hits, 2, 2), None);
    assert_eq!(closest_hits(&hits, 1, 2), None);
    assert_eq!(closest_hits(&hits, 3, 0), None);
    assert_eq!(closest_hits(&hits, 0, 3), None);
    assert_eq!(closest_hits(&hits, usize::MAX, usize::MAX), None);
    assert_eq!(closest_hits(&hits, 3, 1), Some(vec![Some(hit(1, 0)), None, None]));
}
