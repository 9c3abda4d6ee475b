pub mod new_heads_subscription;
