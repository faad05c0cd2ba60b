use raytracer::queue::{new_ray_queue, pop_batch};

#[test]
fn queue_holds_every_pixel_once() {
    let queue = new_ray_queue(3, 2);
    assert_eq!(queue.len(), 6);
    let mut sorted = queue.clone();
    sorted.sort();
    assert_eq!(sorted, vec![0, 1, 2, 3, 4, 5]);
}

#[test]
fn empty_buffer_gives_empty_queue() {
    assert!(new_ray_queue(0, 7).is_empty());
    assert!(new_ray_queue(5, 0).is_empty());
}

#[test]
fn pop_batch_takes_from_the_back() {
    let mut queue = vec![0, 1, 2, 3, 4];
    let batch = pop_batch(&mut queue, 2);
    assert_eq!(batch, vec![4, 3]);
    assert_eq!(queue, vec![0, 1, 2]);
}

#[test]
fn pop_batch_stops_when_empty() {
    let mut queue = vec![7, 8];
    let batch = pop_batch(&mut queue, 100);
    assert_eq!(batch, vec![8, 7]);
    assert!(queue.is_empty());
    let again = pop_batch(&mut queue, 100);
    assert!(again.is_empty());
}

#[test]
fn pop_batch_of_zero_takes_nothing() {
    let mut queue = vec![1, 2, 3];
    assert!(pop_batch(&mut queue, 0).is_empty());
    assert_eq!(queue, vec![1, 2, 3]);
}

#[test]
fn draining_a_queue_yields_every_pixel_once() {
    let mut queue = new_ray_queue(4, 5);
    let mut seen = Vec::new();
    loop {
        let batch = pop_batch(&mut queue, 3);
        if batch.is_empty() {
            break;
        }
        seen.extend(batch);
    }
    seen.sort();
    assert_eq!(seen, (0..20).collect::<Vec<usize>>());
}

#[test]
fn queue_is_shuffled() {
    // The chance that a shuffle of 100 pixels leaves them in order is 1 in 100!.
    let queue = new_ray_queue(10, 10);
    assert_ne!(queue, (0..100).collect::<Vec<usize>>());
}
